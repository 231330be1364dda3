//! The lookup engine: reads one slot of the bucket table, then scans index
//! lines forward from that offset while their words share the query's hash.
use vstd::prelude::*;
use crate::hash::{hash_chars, hash_of, lazy_hash, TABLE_SIZE};
use crate::index::{chars_eq, IndexError};
use crate::table::{line_offset, line_word, SENTINEL};
use crate::text::{
    byte_count, byte_len, line_ends, lines, split_lines, split_tokens, to_chars, tokens,
};

verus! {

/// A found word: its text and the number of its locations.
pub struct WordData {
    pub word: String,
    pub word_count: usize,
}

/// What one index line tells a scan for a word.
#[derive(Debug, Clone, Copy, PartialEq, Eq, Structural)]
pub enum ScanStep {
    /// The line holds the word, with this many locations.
    Match { count: usize },
    /// Another word with the same hash: read on.
    Collision,
    /// A word with another hash: the word's group is over.
    OtherBucket,
    /// The line has no word.
    NoWord,
}

/// What an index line `l` tells a scan for `target`.
pub open spec fn scan_step_spec(target: Seq<char>, l: Seq<char>) -> ScanStep {
    if tokens(l).len() == 0 {
        ScanStep::NoWord
    } else if hash_of(line_word(l)) != hash_of(target) {
        ScanStep::OtherBucket
    } else if line_word(l) == target {
        ScanStep::Match { count: (tokens(l).len() - 1) as usize }
    } else {
        ScanStep::Collision
    }
}

/// The line that starts at byte `slot`, searched from line `k` on.
pub open spec fn line_at(ls: Seq<Seq<char>>, es: Seq<u64>, slot: nat, k: int) -> Option<int>
    decreases ls.len() - k,
{
    if k < 0 || k >= ls.len() {
        None
    } else if line_offset(ls, es, k) == slot {
        Some(k)
    } else if line_offset(ls, es, k) > slot {
        None
    } else {
        line_at(ls, es, slot, k + 1)
    }
}

/// A scan for `target` from line `k`: the number of locations of the line
/// that holds it, `None` once a line of another hash or the end comes
/// first, or the number of a line without a word.
pub open spec fn scan_from(target: Seq<char>, ls: Seq<Seq<char>>, k: int) -> Result<
    Option<nat>,
    nat,
>
    decreases ls.len() - k,
{
    if k < 0 || k >= ls.len() {
        Ok(None)
    } else {
        match scan_step_spec(target, ls[k]) {
            ScanStep::NoWord => Err(k as nat),
            ScanStep::OtherBucket => Ok(None),
            ScanStep::Match { count } => Ok(Some(count as nat)),
            ScanStep::Collision => scan_from(target, ls, k + 1),
        }
    }
}

/// A lookup of `target` in the bucket table `table` and the index lines `ls`
/// with terminator lengths `es`.
pub open spec fn lookup(target: Seq<char>, table: Seq<u64>, ls: Seq<Seq<char>>, es: Seq<u64>) -> Result<
    Option<nat>,
    nat,
> {
    let slot = table[hash_of(target) as int];
    if slot == SENTINEL {
        Ok(None)
    } else {
        match line_at(ls, es, slot as nat, 0) {
            None => Ok(None),
            Some(k) => scan_from(target, ls, k),
        }
    }
}

/// Whether a result of `find_word` for `target` is the lookup outcome `o`.
pub open spec fn find_result(
    target: Seq<char>,
    r: Result<Option<WordData>, IndexError>,
    o: Result<Option<nat>, nat>,
) -> bool {
    match o {
        Ok(None) => r == Ok::<Option<WordData>, IndexError>(None),
        Ok(Some(n)) => r is Ok && r->Ok_0 is Some && r->Ok_0->Some_0.word@ == target
            && r->Ok_0->Some_0.word_count == n,
        Err(line) => r == Err::<Option<WordData>, IndexError>(
            IndexError::MalformedRecord { line: line as usize },
        ),
    }
}

/// Classifies one index line for a scan for `target` (given as characters,
/// with its hash `h`).
pub fn scan_line(target: &Vec<char>, h: usize, line: &Vec<char>) -> (r: ScanStep)
    requires
        h == hash_of(target@),
    ensures
        r == scan_step_spec(target@, line@),
{
    let toks = split_tokens(line);
    if toks.len() == 0 {
        return ScanStep::NoWord;
    }
    proof {
        assert(toks@[0]@ == line_word(line@));
    }
    if hash_chars(&toks[0]) != h {
        ScanStep::OtherBucket
    } else if chars_eq(&toks[0], target) {
        ScanStep::Match { count: toks.len() - 1 }
    } else {
        ScanStep::Collision
    }
}

/// Classifies one index line for a scan for `target`.
pub fn scan_record(target: &str, line: &str) -> (r: ScanStep)
    ensures
        r == scan_step_spec(target@, line@),
{
    let t = to_chars(target);
    let l = to_chars(line);
    let h = hash_chars(&t);
    scan_line(&t, h, &l)
}

/// Looks `target` up in a bucket table and the index text it was built
/// from: `Ok(Some(..))` with the word and its location count, `Ok(None)`
/// when it is not found, an error for a line without a word on the way.
pub fn find_word(target: &str, table: &Vec<u64>, index: &str) -> (r: Result<
    Option<WordData>,
    IndexError,
>)
    requires
        table@.len() == TABLE_SIZE,
        byte_len(index@) < u64::MAX,
    ensures
        find_result(target@, r, lookup(target@, table@, lines(index@), line_ends(index@))),
{
    let h = lazy_hash(target);
    let slot = table[h];
    if slot == SENTINEL {
        return Ok(None);
    }
    let t = to_chars(target);
    let chars = to_chars(index);
    let (lv, ends) = split_lines(&chars);
    let ghost ls = lines(index@);
    let ghost es = line_ends(index@);
    proof {
        crate::table::lemma_lines_bytes(index@);
    }
    let mut offset: u64 = 0;
    let mut k: usize = 0;
    while k < lv.len() && offset < slot
        invariant
            k <= lv.len(),
            ls == lines(index@),
            ls == lv@.map_values(|l: Vec<char>| l@),
            es == line_ends(index@),
            es == ends@,
            es.len() == ls.len(),
            line_offset(ls, es, ls.len() as int) <= byte_len(index@),
            byte_len(index@) < u64::MAX,
            offset == line_offset(ls, es, k as int),
            line_at(ls, es, slot as nat, 0) == line_at(ls, es, slot as nat, k as int),
        decreases lv.len() - k,
    {
        proof {
            crate::table::lemma_offset_monotone(ls, es, k + 1, ls.len() as int);
            assert(ls[k as int] == lv@[k as int]@);
        }
        offset = offset + byte_count(&lv[k]) + ends[k];
        k = k + 1;
    }
    if k == lv.len() || offset != slot {
        return Ok(None);
    }
    let ghost start = k as int;
    proof {
        assert(line_at(ls, es, slot as nat, start) == Some(start));
    }
    while k < lv.len()
        invariant
            start <= k <= lv.len(),
            ls == lines(index@),
            es == line_ends(index@),
            lookup(target@, table@, ls, es) == scan_from(target@, ls, start),
            ls == lv@.map_values(|l: Vec<char>| l@),
            h == hash_of(target@),
            t@ == target@,
            scan_from(target@, ls, start) == scan_from(target@, ls, k as int),
        decreases lv.len() - k,
    {
        proof {
            assert(ls[k as int] == lv@[k as int]@);
        }
        match scan_line(&t, h, &lv[k]) {
            ScanStep::NoWord => {
                return Err(IndexError::MalformedRecord { line: k });
            },
            ScanStep::OtherBucket => {
                return Ok(None);
            },
            ScanStep::Match { count } => {
                return Ok(Some(WordData { word: target.to_owned(), word_count: count }));
            },
            ScanStep::Collision => {},
        }
        k = k + 1;
    }
    Ok(None)
}

/// Lines whose steps are all collisions can be skipped by a scan.
pub proof fn lemma_scan_skip(target: Seq<char>, ls: Seq<Seq<char>>, k: int, n: int)
    requires
        0 <= k <= n <= ls.len(),
        forall|j: int| k <= j < n ==> scan_step_spec(target, #[trigger] ls[j]) == ScanStep::Collision,
    ensures
        scan_from(target, ls, k) == scan_from(target, ls, n),
    decreases n - k,
{
    if k < n {
        lemma_scan_skip(target, ls, k + 1, n);
    }
}

/// A scan for one word over the index lines read from its bucket's offset
/// on, one line at a time.
pub struct ScanCursor {
    target: Vec<char>,
    hash: usize,
    read: usize,
    seen_lines: Ghost<Seq<Seq<char>>>,
}

impl ScanCursor {
    /// The word looked for.
    pub closed spec fn target(&self) -> Seq<char> {
        self.target@
    }

    /// The lines handed to the cursor so far.
    pub closed spec fn seen(&self) -> Seq<Seq<char>> {
        self.seen_lines@
    }

    /// The lines seen so far are all collisions, so the scan goes on.
    pub closed spec fn wf(&self) -> bool {
        &&& self.hash == hash_of(self.target@)
        &&& self.read == self.seen_lines@.len()
        &&& forall|j: int|
            0 <= j < self.seen_lines@.len() ==> scan_step_spec(self.target@, #[trigger] self.seen_lines@[j])
                == ScanStep::Collision
    }

    /// Starts a scan for `target`.
    pub fn new(target: &str) -> (c: ScanCursor)
        ensures
            c.wf(),
            c.target() == target@,
            c.seen() == Seq::<Seq<char>>::empty(),
    {
        let t = to_chars(target);
        let h = hash_chars(&t);
        ScanCursor { target: t, hash: h, read: 0, seen_lines: Ghost(Seq::empty()) }
    }

    /// Number of lines handed to the cursor so far.
    pub fn lines_read(&self) -> (n: usize)
        requires
            self.wf(),
        ensures
            n == self.seen().len(),
    {
        self.read
    }

    /// Takes the next index line. `Some` holds the result of the lookup
    /// (a `MalformedRecord` numbers lines from the bucket's offset on) and
    /// ends the scan; `None` means the line is a collision and the scan goes
    /// on.
    pub fn next_line(&mut self, line: &str) -> (r: Option<Result<Option<WordData>, IndexError>>)
        requires
            old(self).wf(),
            old(self).seen().len() < usize::MAX,
        ensures
            r is None ==> final(self).wf(),
            final(self).target() == old(self).target(),
            final(self).seen() == old(self).seen().push(line@),
            r is None <==> scan_step_spec(old(self).target(), line@) == ScanStep::Collision,
            forall|more: Seq<Seq<char>>|
                r is Some ==> find_result(
                    old(self).target(),
                    r->Some_0,
                    #[trigger] scan_from(old(self).target(), final(self).seen() + more, 0),
                ),
    {
        let l = to_chars(line);
        let step = scan_line(&self.target, self.hash, &l);
        let n = self.read;
        let ghost before = self.seen_lines@;
        let ghost t = self.target@;
        self.seen_lines = Ghost(before.push(line@));
        self.read = n + 1;
        proof {
            assert forall|more: Seq<Seq<char>>| n < (#[trigger] (before.push(line@) + more)).len()
                && (before.push(line@) + more)[n as int] == line@ && scan_from(
                t,
                before.push(line@) + more,
                0,
            ) == scan_from(t, before.push(line@) + more, n as int) by {
                let s = before.push(line@) + more;
                assert forall|j: int| 0 <= j < n implies scan_step_spec(t, #[trigger] s[j])
                    == ScanStep::Collision by {
                    assert(s[j] == before[j]);
                }
                lemma_scan_skip(t, s, 0, n as int);
            }
            if step == ScanStep::Collision {
                assert forall|j: int| 0 <= j < self.seen_lines@.len() implies scan_step_spec(
                    self.target@,
                    #[trigger] self.seen_lines@[j],
                ) == ScanStep::Collision by {
                    if j < n {
                        assert(self.seen_lines@[j] == before[j]);
                    }
                }
            }
        }
        match step {
            ScanStep::NoWord => Some(Err(IndexError::MalformedRecord { line: n })),
            ScanStep::OtherBucket => Some(Ok(None)),
            ScanStep::Match { count } => {
                Some(Ok(Some(WordData { word: crate::index::string_of(&self.target), word_count: count })))
            },
            ScanStep::Collision => None,
        }
    }

    /// Ends the scan at the end of the index: the word was not found.
    pub fn finish(&self) -> (r: Result<Option<WordData>, IndexError>)
        requires
            self.wf(),
        ensures
            find_result(self.target(), r, scan_from(self.target(), self.seen(), 0)),
    {
        proof {
            lemma_scan_skip(self.target@, self.seen_lines@, 0, self.seen_lines@.len() as int);
        }
        Ok(None)
    }
}

} // verus!
