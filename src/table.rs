//! The bucket table: for each hash value, the byte offset of the first index
//! line whose word has that hash.
use vstd::prelude::*;
use crate::hash::{hash_chars, hash_of, lemma_hash_bound, TABLE_SIZE};
use crate::index::IndexError;
use crate::text::{
    byte_count, byte_len, ends_done, lemma_encode_push, lemma_ends_len, line_ends, line_state,
    lines, terminator_len,
    split_lines, split_tokens, strip_cr, to_chars, tokens,
};

verus! {

/// Slot value of a bucket that no word hashes to.
pub const SENTINEL: u64 = 0xffff_ffff_ffff_ffff;

/// Number of bytes of one slot in the table file.
pub const SLOT_BYTES: usize = 8;

/// The word of an index line: its first token.
pub open spec fn line_word(l: Seq<char>) -> Seq<char> {
    tokens(l)[0]
}

/// An index line is readable when it has a word.
pub open spec fn index_line_ok(l: Seq<char>) -> bool {
    tokens(l).len() >= 1
}

/// Whether every index line has a word.
pub open spec fn all_index_ok(ls: Seq<Seq<char>>) -> bool {
    forall|i: int| 0 <= i < ls.len() ==> index_line_ok(#[trigger] ls[i])
}

/// Byte offset at which line `k` starts: each earlier line counts its bytes
/// and the bytes of its terminator (`es` holds the terminator lengths).
pub open spec fn line_offset(ls: Seq<Seq<char>>, es: Seq<u64>, k: int) -> nat
    decreases k,
{
    if k <= 0 {
        0
    } else {
        line_offset(ls, es, k - 1) + byte_len(ls[k - 1]) + es[k - 1] as nat
    }
}

/// The table after the first `k` index lines: a slot takes the offset of
/// the first line whose word hashes to it, and keeps it.
pub open spec fn table_after(ls: Seq<Seq<char>>, es: Seq<u64>, k: int) -> Seq<u64>
    decreases k,
{
    if k <= 0 {
        Seq::new(TABLE_SIZE as nat, |i: int| SENTINEL)
    } else {
        let t = table_after(ls, es, k - 1);
        let h = hash_of(line_word(ls[k - 1])) as int;
        if t[h] == SENTINEL {
            t.update(h, line_offset(ls, es, k - 1) as u64)
        } else {
            t
        }
    }
}

/// The bucket table of the index lines `ls` with terminator lengths `es`.
pub open spec fn bucket_table(ls: Seq<Seq<char>>, es: Seq<u64>) -> Seq<u64> {
    table_after(ls, es, ls.len() as int)
}

/// The bucket table of an index text.
pub open spec fn bucket_table_of(index: Seq<char>) -> Seq<u64> {
    bucket_table(lines(index), line_ends(index))
}

pub proof fn lemma_table_len(ls: Seq<Seq<char>>, es: Seq<u64>, k: int)
    ensures
        table_after(ls, es, k).len() == TABLE_SIZE,
    decreases k,
{
    if k > 0 {
        lemma_table_len(ls, es, k - 1);
        lemma_hash_bound(line_word(ls[k - 1]));
    }
}

/// Offsets grow with the line number.
pub proof fn lemma_offset_monotone(ls: Seq<Seq<char>>, es: Seq<u64>, j: int, k: int)
    requires
        j <= k,
    ensures
        line_offset(ls, es, j) <= line_offset(ls, es, k),
    decreases k - j,
{
    if j < k {
        lemma_offset_monotone(ls, es, j, k - 1);
    }
}

/// Offsets of the first lines do not depend on the lines after them.
pub proof fn lemma_offset_prefix(
    ls: Seq<Seq<char>>,
    es: Seq<u64>,
    more: Seq<Seq<char>>,
    more_es: Seq<u64>,
    k: int,
)
    requires
        k <= ls.len(),
        k <= es.len(),
    ensures
        line_offset(ls + more, es + more_es, k) == line_offset(ls, es, k),
    decreases k,
{
    if k > 0 {
        lemma_offset_prefix(ls, es, more, more_es, k - 1);
        assert((ls + more)[k - 1] == ls[k - 1]);
        assert((es + more_es)[k - 1] == es[k - 1]);
    }
}

/// While reading text into lines, the finished lines with their terminators
/// and the current line together take no more bytes than the text read.
pub proof fn lemma_line_state_bytes(s: Seq<char>)
    ensures
        line_offset(line_state(s).0, ends_done(s), line_state(s).0.len() as int) + byte_len(
            line_state(s).1,
        ) <= byte_len(s),
    decreases s.len(),
{
    lemma_ends_len(s);
    if s.len() > 0 {
        let s0 = s.drop_last();
        let c = s.last();
        lemma_line_state_bytes(s0);
        lemma_ends_len(s0);
        let (d0, c0) = line_state(s0);
        let e0 = ends_done(s0);
        assert(s0.push(c) =~= s);
        lemma_encode_push(s0, c);
        if c == '\n' {
            let d = d0.push(strip_cr(c0));
            let e = e0.push(terminator_len(c0));
            lemma_offset_prefix(d0, e0, seq![strip_cr(c0)], seq![terminator_len(c0)], d0.len() as int);
            assert(d0 + seq![strip_cr(c0)] =~= d);
            assert(e0 + seq![terminator_len(c0)] =~= e);
            if c0.len() > 0 && c0.last() == '\r' {
                assert(c0.drop_last().push('\r') =~= c0);
                lemma_encode_push(c0.drop_last(), '\r');
            }
            assert(byte_len(Seq::<char>::empty()) == 0) by {
                assert(vstd::utf8::encode_utf8(Seq::<char>::empty()) =~= Seq::<u8>::empty());
            }
            assert(line_state(s).1 =~= Seq::<char>::empty());
        } else {
            lemma_encode_push(c0, c);
        }
    }
}

/// The lines of a text with their terminators take no more bytes than the
/// text.
pub proof fn lemma_lines_bytes(s: Seq<char>)
    ensures
        line_offset(lines(s), line_ends(s), lines(s).len() as int) <= byte_len(s),
        line_ends(s).len() == lines(s).len(),
{
    lemma_line_state_bytes(s);
    lemma_ends_len(s);
    let (d, c) = line_state(s);
    if c.len() > 0 {
        lemma_offset_prefix(d, ends_done(s), seq![c], seq![0u64], d.len() as int);
        assert(d + seq![c] =~= d.push(c));
        assert(ends_done(s) + seq![0u64] =~= ends_done(s).push(0));
    }
}

/// Builds the bucket table of an index text. Fails on the first line that
/// has no word.
pub fn make_magic_file(index: &str) -> (r: Result<Vec<u64>, IndexError>)
    requires
        byte_len(index@) < u64::MAX,
    ensures
        ({
            let ls = lines(index@);
            &&& r is Ok <==> all_index_ok(ls)
            &&& r is Ok ==> r->Ok_0@ == bucket_table_of(index@)
            &&& r is Err ==> {
                let line = r->Err_0->MalformedRecord_line;
                &&& line < ls.len()
                &&& !index_line_ok(ls[line as int])
                &&& forall|j: int| 0 <= j < line ==> index_line_ok(#[trigger] ls[j])
            }
        }),
{
    let chars = to_chars(index);
    let (lv, ends) = split_lines(&chars);
    let ghost ls = lines(index@);
    let ghost es = line_ends(index@);
    proof {
        lemma_lines_bytes(index@);
    }
    let mut table: Vec<u64> = Vec::new();
    let mut s: usize = 0;
    while s < TABLE_SIZE
        invariant
            s <= TABLE_SIZE,
            table@ == Seq::new(s as nat, |i: int| SENTINEL),
        decreases TABLE_SIZE - s,
    {
        table.push(SENTINEL);
        s = s + 1;
        proof {
            assert(table@ =~= Seq::new(s as nat, |i: int| SENTINEL));
        }
    }
    let mut offset: u64 = 0;
    let mut k: usize = 0;
    while k < lv.len()
        invariant
            k <= lv.len(),
            ls == lines(index@),
            ls == lv@.map_values(|l: Vec<char>| l@),
            es == line_ends(index@),
            es == ends@,
            es.len() == ls.len(),
            line_offset(ls, es, ls.len() as int) <= byte_len(index@),
            byte_len(index@) < u64::MAX,
            offset == line_offset(ls, es, k as int),
            table@ == table_after(ls, es, k as int),
            forall|j: int| 0 <= j < k ==> index_line_ok(#[trigger] ls[j]),
        decreases lv.len() - k,
    {
        let toks = split_tokens(&lv[k]);
        proof {
            assert(ls[k as int] == lv@[k as int]@);
            assert(toks@.map_values(|t: Vec<char>| t@).len() == toks@.len());
        }
        if toks.len() == 0 {
            proof {
                assert(!index_line_ok(ls[k as int]));
            }
            return Err(IndexError::MalformedRecord { line: k });
        }
        proof {
            assert(toks@[0]@ == line_word(ls[k as int]));
            lemma_table_len(ls, es, k as int);
            lemma_offset_monotone(ls, es, k + 1, ls.len() as int);
        }
        let h = hash_chars(&toks[0]);
        if table[h] == SENTINEL {
            table.set(h, offset);
        }
        offset = offset + byte_count(&lv[k]) + ends[k];
        k = k + 1;
    }
    Ok(table)
}

/// The `n` low bytes of `x`, least significant first.
pub open spec fn le_bytes(x: nat, n: nat) -> Seq<u8>
    decreases n,
{
    if n == 0 {
        seq![]
    } else {
        seq![(x % 256) as u8] + le_bytes(x / 256, (n - 1) as nat)
    }
}

/// The table file: each slot as eight bytes, least significant first, slot
/// `h` at byte `8 * h`.
pub open spec fn table_file(t: Seq<u64>) -> Seq<u8>
    decreases t.len(),
{
    if t.len() == 0 {
        seq![]
    } else {
        table_file(t.drop_last()) + le_bytes(t.last() as nat, SLOT_BYTES as nat)
    }
}

/// The number that bytes stand for, least significant first.
pub open spec fn le_value(b: Seq<u8>) -> nat
    decreases b.len(),
{
    if b.len() == 0 {
        0
    } else {
        b[0] as nat + 256 * le_value(b.drop_first())
    }
}

pub open spec fn pow256(n: nat) -> nat
    decreases n,
{
    if n == 0 {
        1
    } else {
        256 * pow256((n - 1) as nat)
    }
}

pub proof fn lemma_le_value_bound(b: Seq<u8>)
    ensures
        le_value(b) < pow256(b.len()),
    decreases b.len(),
{
    if b.len() > 0 {
        lemma_le_value_bound(b.drop_first());
        let v = le_value(b.drop_first());
        let p = pow256((b.len() - 1) as nat);
        assert(b[0] as nat + 256 * v < 256 * p) by (nonlinear_arith)
            requires
                v < p,
                b[0] < 256,
        ;
    }
}

pub proof fn lemma_pow256_8()
    ensures
        pow256(8) == 0x1_0000_0000_0000_0000,
{
    assert(pow256(0) == 1);
    assert(pow256(1) == 256);
    assert(pow256(2) == 0x1_0000);
    assert(pow256(3) == 0x100_0000);
    assert(pow256(4) == 0x1_0000_0000);
    assert(pow256(5) == 0x100_0000_0000);
    assert(pow256(6) == 0x1_0000_0000_0000);
    assert(pow256(7) == 0x100_0000_0000_0000);
}

/// Reading back the bytes of a number gives the number, when it fits.
pub proof fn lemma_le_round_trip(x: nat, n: nat)
    requires
        x < pow256(n),
    ensures
        le_value(le_bytes(x, n)) == x,
        le_bytes(x, n).len() == n,
    decreases n,
{
    if n > 0 {
        let p = pow256((n - 1) as nat);
        assert(x / 256 < p) by (nonlinear_arith)
            requires
                x < 256 * p,
        ;
        lemma_le_round_trip(x / 256, (n - 1) as nat);
        assert(le_bytes(x, n).drop_first() =~= le_bytes(x / 256, (n - 1) as nat));
    }
}

/// Appends the eight bytes of one slot.
pub fn push_slot(out: &mut Vec<u8>, x: u64)
    ensures
        final(out)@ == old(out)@ + le_bytes(x as nat, SLOT_BYTES as nat),
{
    let ghost start = out@;
    let mut rest: u64 = x;
    let mut i: usize = 0;
    while i < SLOT_BYTES
        invariant
            i <= SLOT_BYTES,
            start + le_bytes(x as nat, SLOT_BYTES as nat) == out@ + le_bytes(
                rest as nat,
                (SLOT_BYTES - i) as nat,
            ),
        decreases SLOT_BYTES - i,
    {
        proof {
            let n = (SLOT_BYTES - i) as nat;
            assert(le_bytes(rest as nat, n) == seq![(rest % 256) as u8] + le_bytes(
                (rest / 256) as nat,
                (n - 1) as nat,
            ));
            assert(out@.push((rest % 256) as u8) + le_bytes((rest / 256) as nat, (n - 1) as nat)
                =~= out@ + le_bytes(rest as nat, n));
        }
        out.push((rest % 256) as u8);
        rest = rest / 256;
        i = i + 1;
    }
    proof {
        assert(out@ + le_bytes(rest as nat, 0) =~= out@);
    }
}

/// The bytes of the table file.
pub fn table_bytes(t: &Vec<u64>) -> (r: Vec<u8>)
    ensures
        r@ == table_file(t@),
{
    let mut out: Vec<u8> = Vec::new();
    let mut i: usize = 0;
    while i < t.len()
        invariant
            i <= t.len(),
            out@ == table_file(t@.take(i as int)),
        decreases t.len() - i,
    {
        proof {
            assert(t@.take(i + 1).drop_last() =~= t@.take(i as int));
        }
        push_slot(&mut out, t[i]);
        i = i + 1;
    }
    proof {
        assert(t@.take(i as int) =~= t@);
    }
    out
}

/// Reads one slot of the table file: the offset it holds, or `None` for an
/// empty bucket.
pub fn slot_value(b: &[u8]) -> (r: Option<u64>)
    requires
        b@.len() == SLOT_BYTES,
    ensures
        le_value(b@) <= u64::MAX,
        r == (if le_value(b@) == SENTINEL {
            None
        } else {
            Some(le_value(b@) as u64)
        }),
{
    let mut v: u64 = 0;
    let mut i: usize = SLOT_BYTES;
    while i > 0
        invariant
            i <= SLOT_BYTES == b@.len(),
            v == le_value(b@.subrange(i as int, SLOT_BYTES as int)),
        decreases i,
    {
        let ghost tail = b@.subrange(i as int, SLOT_BYTES as int);
        let ghost next = b@.subrange(i - 1, SLOT_BYTES as int);
        proof {
            assert(next.drop_first() =~= tail);
            lemma_le_value_bound(tail);
            lemma_pow256_8();
            let k = tail.len();
            assert(pow256(k) * 256 <= pow256(8)) by {
                lemma_pow256_mono(k + 1, 8);
            }
            assert(b[i - 1] as nat + 256 * v < pow256(8)) by (nonlinear_arith)
                requires
                    v < pow256(k),
                    pow256(k) * 256 <= pow256(8),
                    b[i - 1] < 256,
            ;
        }
        v = b[i - 1] as u64 + 256 * v;
        i = i - 1;
    }
    proof {
        assert(b@.subrange(0, SLOT_BYTES as int) =~= b@);
    }
    if v == SENTINEL {
        None
    } else {
        Some(v)
    }
}

pub proof fn lemma_pow256_mono(j: nat, k: nat)
    requires
        j <= k,
    ensures
        pow256(j) <= pow256(k),
        pow256(j) >= 1,
    decreases k,
{
    if j < k {
        lemma_pow256_mono(j, (k - 1) as nat);
    } else if j > 0 {
        lemma_pow256_mono((j - 1) as nat, (j - 1) as nat);
    }
}

pub proof fn lemma_table_file_len(t: Seq<u64>)
    ensures
        table_file(t).len() == SLOT_BYTES * t.len(),
    decreases t.len(),
{
    if t.len() > 0 {
        lemma_table_file_len(t.drop_last());
        lemma_pow256_8();
        lemma_le_round_trip(t.last() as nat, SLOT_BYTES as nat);
    }
}

/// Slot `h` of the table file is the eight bytes at byte `8 * h`, and they
/// read back as the slot's value.
pub proof fn law_table_file_slot(t: Seq<u64>, h: int)
    requires
        0 <= h < t.len(),
    ensures
        table_file(t).len() == SLOT_BYTES * t.len(),
        le_value(table_file(t).subrange(SLOT_BYTES * h, SLOT_BYTES * h + SLOT_BYTES)) == t[h],
    decreases t.len(),
{
    lemma_table_file_len(t);
    let t0 = t.drop_last();
    lemma_table_file_len(t0);
    let f = table_file(t);
    let f0 = table_file(t0);
    let last = le_bytes(t.last() as nat, SLOT_BYTES as nat);
    lemma_pow256_8();
    lemma_le_round_trip(t.last() as nat, SLOT_BYTES as nat);
    assert(f == f0 + last);
    assert(f0.len() == 8 * (t.len() - 1));
    if h == t.len() - 1 {
        assert(f.subrange(SLOT_BYTES * h, SLOT_BYTES * h + SLOT_BYTES) =~= last);
    } else {
        law_table_file_slot(t0, h);
        assert(f.subrange(SLOT_BYTES * h, SLOT_BYTES * h + SLOT_BYTES) =~= f0.subrange(
            SLOT_BYTES * h,
            SLOT_BYTES * h + SLOT_BYTES,
        ));
        assert(t0[h] == t[h]);
    }
}

} // verus!
