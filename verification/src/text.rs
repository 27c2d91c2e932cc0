//! Byte-level text utilities shared by the decoder and encoder: whitespace
//! trimming, searching for a delimiter byte, splitting a byte string into
//! lines or tab-separated fields, and lexicographic ordering of byte strings.

use vstd::prelude::*;

verus! {

/// The newline byte that terminates a line.
pub const NL: u8 = 10;

/// The carriage-return byte stripped from the end of a line.
pub const CR: u8 = 13;

/// The tab byte that separates fields.
pub const TAB: u8 = 9;

/// Bytes treated as whitespace when trimming a field: ASCII space and the
/// control characters tab through carriage return.
pub open spec fn is_ws(b: u8) -> bool {
    b == 32 || (9 <= b && b <= 13)
}

pub fn is_ws_byte(b: u8) -> (r: bool)
    ensures
        r == is_ws(b),
{
    b == 32 || (9 <= b && b <= 13)
}

/// The sequence with leading whitespace removed.
pub open spec fn trim_front(s: Seq<u8>) -> Seq<u8>
    decreases s.len(),
{
    if s.len() == 0 {
        s
    } else if is_ws(s[0]) {
        trim_front(s.drop_first())
    } else {
        s
    }
}

/// The sequence with trailing whitespace removed.
pub open spec fn trim_back(s: Seq<u8>) -> Seq<u8>
    decreases s.len(),
{
    if s.len() == 0 {
        s
    } else if is_ws(s[s.len() - 1]) {
        trim_back(s.drop_last())
    } else {
        s
    }
}

/// The sequence with surrounding whitespace removed.
pub open spec fn trim(s: Seq<u8>) -> Seq<u8> {
    trim_back(trim_front(s))
}

/// A line is blank when trimming leaves nothing.
pub open spec fn is_blank(s: Seq<u8>) -> bool {
    trim(s).len() == 0
}

pub proof fn lemma_trim_front_ws_prefix(s: Seq<u8>, i: int)
    requires
        0 <= i <= s.len(),
        forall|k: int| 0 <= k < i ==> is_ws(s[k]),
    ensures
        trim_front(s) == trim_front(s.skip(i)),
    decreases i,
{
    if i == 0 {
        assert(s.skip(0) =~= s);
    } else {
        lemma_trim_front_ws_prefix(s.drop_first(), i - 1);
        assert(s.drop_first().skip(i - 1) =~= s.skip(i));
    }
}

pub proof fn lemma_trim_back_ws_suffix(s: Seq<u8>, i: int)
    requires
        0 <= i <= s.len(),
        forall|k: int| i <= k < s.len() ==> is_ws(s[k]),
    ensures
        trim_back(s) == trim_back(s.take(i)),
    decreases s.len() - i,
{
    if i == s.len() {
        assert(s.take(i) =~= s);
    } else {
        lemma_trim_back_ws_suffix(s.drop_last(), i);
        assert(s.drop_last().take(i) =~= s.take(i));
    }
}

/// Trimming a sequence whose ends are already clean changes nothing.
pub proof fn lemma_trim_clean(s: Seq<u8>)
    requires
        s.len() == 0 || (!is_ws(s[0]) && !is_ws(s[s.len() - 1])),
    ensures
        trim(s) == s,
{
}

/// A sequence that starts with non-whitespace keeps something after
/// trailing trimming — so a line with such a start is not blank.
pub proof fn lemma_trim_back_nonempty(s: Seq<u8>)
    requires
        s.len() > 0,
        !is_ws(s[0]),
    ensures
        trim_back(s).len() > 0,
    decreases s.len(),
{
    if is_ws(s[s.len() - 1]) {
        lemma_trim_back_nonempty(s.drop_last());
    }
}

/// Copy of `s[from..to]` as a fresh vector.
pub fn sub_bytes(s: &Vec<u8>, from: usize, to: usize) -> (r: Vec<u8>)
    requires
        from <= to <= s@.len(),
    ensures
        r@ == s@.subrange(from as int, to as int),
{
    let mut r: Vec<u8> = Vec::new();
    let mut k: usize = from;
    while k < to
        invariant
            from <= k <= to <= s@.len(),
            r@ == s@.subrange(from as int, k as int),
        decreases to - k,
    {
        r.push(s[k]);
        assert(s@.subrange(from as int, k + 1 as int) =~= s@.subrange(from as int, k as int).push(
            s@[k as int],
        ));
        k = k + 1;
    }
    r
}

/// Appends all of `s` to `out`.
pub fn push_bytes(out: &mut Vec<u8>, s: &Vec<u8>)
    ensures
        final(out)@ == old(out)@ + s@,
{
    let ghost base = out@;
    let n = s.len();
    let mut k: usize = 0;
    proof {
        assert(out@ =~= base + s@.take(0));
    }
    while k < n
        invariant
            0 <= k <= n == s@.len(),
            out@ == base + s@.take(k as int),
        decreases n - k,
    {
        out.push(s[k]);
        proof {
            assert(base + s@.take(k + 1) =~= (base + s@.take(k as int)).push(s@[k as int]));
        }
        k = k + 1;
    }
    proof {
        assert(s@.take(n as int) =~= s@);
    }
}

/// Whitespace removed from both ends, as a fresh vector.
pub fn trim_bytes(s: &Vec<u8>) -> (r: Vec<u8>)
    ensures
        r@ == trim(s@),
{
    let n = s.len();
    let mut a: usize = 0;
    while a < n && is_ws_byte(s[a])
        invariant
            0 <= a <= n == s@.len(),
            forall|k: int| 0 <= k < a ==> is_ws(s@[k]),
        decreases n - a,
    {
        a = a + 1;
    }
    proof {
        lemma_trim_front_ws_prefix(s@, a as int);
    }
    if a == n {
        // everything is whitespace
        assert(s@.skip(a as int) =~= Seq::<u8>::empty());
        Vec::new()
    } else {
        assert(trim_front(s@) == s@.skip(a as int));
        let mut b: usize = n;
        while b > a + 1 && is_ws_byte(s[b - 1])
            invariant
                a < b <= n == s@.len(),
                forall|k: int| b <= k < n ==> is_ws(s@[k]),
            decreases b,
        {
            b = b - 1;
        }
        if is_ws_byte(s[b - 1]) {
            // only reachable when b == a + 1 and even s[a] is whitespace,
            // which the first loop ruled out
            assert(false);
        }
        proof {
            let t = s@.skip(a as int);
            lemma_trim_back_ws_suffix(t, b - a as int);
            assert(t.take(b - a as int) =~= s@.subrange(a as int, b as int));
            let u = s@.subrange(a as int, b as int);
            assert(!is_ws(u[u.len() - 1]));
            assert(trim_back(u) == u);
        }
        sub_bytes(s, a, b)
    }
}

/// Index of the first occurrence of `b` in `s`, or `s.len()` when absent.
pub open spec fn find_byte(s: Seq<u8>, b: u8) -> int
    decreases s.len(),
{
    if s.len() == 0 {
        0
    } else if s[0] == b {
        0
    } else {
        1 + find_byte(s.drop_first(), b)
    }
}

pub proof fn lemma_find_byte_bounds(s: Seq<u8>, b: u8)
    ensures
        0 <= find_byte(s, b) <= s.len(),
        forall|k: int| 0 <= k < find_byte(s, b) ==> s[k] != b,
        find_byte(s, b) < s.len() ==> s[find_byte(s, b)] == b,
    decreases s.len(),
{
    if s.len() > 0 && s[0] != b {
        lemma_find_byte_bounds(s.drop_first(), b);
        assert forall|k: int| 0 <= k < find_byte(s, b) implies s[k] != b by {
            if k > 0 {
                assert(s.drop_first()[k - 1] != b);
            }
        }
    }
}

/// Pins `find_byte` from a witness: all bytes before `i` differ from `b`, and
/// `i` is either the end or an occurrence.
pub proof fn lemma_find_byte_at(s: Seq<u8>, b: u8, i: int)
    requires
        0 <= i <= s.len(),
        forall|k: int| 0 <= k < i ==> s[k] != b,
        i == s.len() || s[i] == b,
    ensures
        find_byte(s, b) == i,
    decreases i,
{
    if i > 0 {
        lemma_find_byte_at(s.drop_first(), b, i - 1);
    }
}

/// Index of the first occurrence of `b`, or `s.len()` when `b` is absent.
pub fn find_byte_exec(s: &Vec<u8>, b: u8) -> (r: usize)
    ensures
        r == find_byte(s@, b),
        r <= s@.len(),
{
    let n = s.len();
    let mut k: usize = 0;
    while k < n && s[k] != b
        invariant
            0 <= k <= n == s@.len(),
            forall|j: int| 0 <= j < k ==> s@[j] != b,
        decreases n - k,
    {
        k = k + 1;
    }
    proof {
        lemma_find_byte_at(s@, b, k as int);
    }
    k
}

/// Strict lexicographic (byte-wise) order on byte strings: the order in which
/// attribute and signal keys are kept and serialized.
pub open spec fn lex_lt(a: Seq<u8>, b: Seq<u8>) -> bool
    decreases a.len(),
{
    if b.len() == 0 {
        false
    } else if a.len() == 0 {
        true
    } else if a[0] < b[0] {
        true
    } else if a[0] > b[0] {
        false
    } else {
        lex_lt(a.drop_first(), b.drop_first())
    }
}

/// Exactly one of `lex_lt(a, b)`, `a == b`, `lex_lt(b, a)` holds.
pub proof fn lemma_lex_trichotomy(a: Seq<u8>, b: Seq<u8>)
    ensures
        lex_lt(a, b) || lex_lt(b, a) || a == b,
        lex_lt(a, b) ==> !lex_lt(b, a) && a != b,
        lex_lt(b, a) ==> !lex_lt(a, b) && a != b,
    decreases a.len(),
{
    if a.len() > 0 && b.len() > 0 && a[0] == b[0] {
        lemma_lex_trichotomy(a.drop_first(), b.drop_first());
        if a.drop_first() == b.drop_first() {
            assert(a.len() == b.len());
            assert forall|i: int| 0 <= i < a.len() implies a[i] == b[i] by {
                if i > 0 {
                    assert(a.drop_first()[i - 1] == b.drop_first()[i - 1]);
                }
            }
            assert(a =~= b);
        }
        if a == b {
            assert(a.drop_first() =~= b.drop_first());
        }
    } else if a == b {
        assert(a.len() == b.len());
    }
}

/// Transitivity of the lexicographic order.
pub proof fn lemma_lex_transitive(a: Seq<u8>, b: Seq<u8>, c: Seq<u8>)
    requires
        lex_lt(a, b),
        lex_lt(b, c),
    ensures
        lex_lt(a, c),
    decreases a.len(),
{
    if a.len() > 0 && b.len() > 0 && c.len() > 0 && a[0] == b[0] && b[0] == c[0] {
        lemma_lex_transitive(a.drop_first(), b.drop_first(), c.drop_first());
    }
}

/// Three-way comparison result for byte strings.
pub enum ByteOrder {
    Less,
    Equal,
    Greater,
}

/// Compares two byte strings in lexicographic order.
pub fn cmp_bytes(a: &Vec<u8>, b: &Vec<u8>) -> (r: ByteOrder)
    ensures
        r is Less <==> lex_lt(a@, b@),
        r is Equal <==> a@ == b@,
        r is Greater <==> lex_lt(b@, a@),
{
    proof {
        lemma_lex_trichotomy(a@, b@);
    }
    let an = a.len();
    let bn = b.len();
    let mut k: usize = 0;
    while k < an && k < bn && a[k] == b[k]
        invariant
            0 <= k <= an == a@.len(),
            k <= bn == b@.len(),
            forall|j: int| 0 <= j < k ==> a@[j] == b@[j],
        decreases an - k,
    {
        k = k + 1;
    }
    proof {
        lemma_lex_skip_common(a@, b@, k as int);
    }
    if k < an && k < bn {
        if a[k] < b[k] {
            ByteOrder::Less
        } else {
            ByteOrder::Greater
        }
    } else if k < bn {
        // a is a strict prefix of b
        ByteOrder::Less
    } else if k < an {
        ByteOrder::Greater
    } else {
        assert(a@ =~= b@);
        ByteOrder::Equal
    }
}

/// View of a vector of byte vectors as a sequence of byte sequences.
pub open spec fn seqs_view(v: Seq<Vec<u8>>) -> Seq<Seq<u8>> {
    Seq::new(v.len(), |k: int| v[k]@)
}

/// A line with a trailing carriage return removed, as the line reader strips
/// `\r\n` endings.
pub open spec fn strip_cr(s: Seq<u8>) -> Seq<u8> {
    if s.len() > 0 && s[s.len() - 1] == CR {
        s.drop_last()
    } else {
        s
    }
}

/// The lines of a byte stream: split on newline, each line stripped of one
/// trailing carriage return, with no empty line after a final newline.
pub open spec fn split_lines(s: Seq<u8>) -> Seq<Seq<u8>>
    decreases s.len(),
    via split_lines_dec
{
    if s.len() == 0 {
        Seq::empty()
    } else {
        let i = find_byte(s, NL);
        if i == s.len() {
            seq![s]
        } else {
            seq![strip_cr(s.take(i))] + split_lines(s.skip(i + 1))
        }
    }
}

#[via_fn]
proof fn split_lines_dec(s: Seq<u8>) {
    lemma_find_byte_bounds(s, NL);
}

/// The tab-separated fields of a line, empty fields kept; a lone empty line
/// is one empty field.
pub open spec fn split_tabs(s: Seq<u8>) -> Seq<Seq<u8>>
    decreases s.len(),
    via split_tabs_dec
{
    let i = find_byte(s, TAB);
    if i == s.len() {
        seq![s]
    } else {
        seq![s.take(i)] + split_tabs(s.skip(i + 1))
    }
}

#[via_fn]
proof fn split_tabs_dec(s: Seq<u8>) {
    lemma_find_byte_bounds(s, TAB);
}

/// Splitting a stream that starts with a newline-free line peels that line
/// off.
pub proof fn lemma_split_lines_prepend(line: Seq<u8>, rest: Seq<u8>)
    requires
        forall|k: int| 0 <= k < line.len() ==> line[k] != NL,
    ensures
        split_lines(line + seq![NL] + rest) == seq![strip_cr(line)] + split_lines(rest),
{
    let s = line + seq![NL] + rest;
    assert(s.len() > 0);
    lemma_find_byte_at(s, NL, line.len() as int);
    assert(s.take(line.len() as int) =~= line);
    assert(s.skip(line.len() as int + 1) =~= rest);
}

/// Splitting a line that starts with a tab-free field peels that field off.
pub proof fn lemma_split_tabs_prepend(field: Seq<u8>, rest: Seq<u8>)
    requires
        forall|k: int| 0 <= k < field.len() ==> field[k] != TAB,
    ensures
        split_tabs(field + seq![TAB] + rest) == seq![field] + split_tabs(rest),
{
    let s = field + seq![TAB] + rest;
    lemma_find_byte_at(s, TAB, field.len() as int);
    assert(s.take(field.len() as int) =~= field);
    assert(s.skip(field.len() as int + 1) =~= rest);
}

/// A newline-free remainder is one final line.
pub proof fn lemma_split_lines_last(line: Seq<u8>)
    requires
        line.len() > 0,
        forall|k: int| 0 <= k < line.len() ==> line[k] != NL,
    ensures
        split_lines(line) == seq![line],
{
    lemma_find_byte_at(line, NL, line.len() as int);
}

/// A tab-free remainder is one final field.
pub proof fn lemma_split_tabs_last(field: Seq<u8>)
    requires
        forall|k: int| 0 <= k < field.len() ==> field[k] != TAB,
    ensures
        split_tabs(field) == seq![field],
{
    lemma_find_byte_at(field, TAB, field.len() as int);
}

/// Splits a byte stream into its lines.
pub fn split_lines_exec(input: &[u8]) -> (r: Vec<Vec<u8>>)
    ensures
        seqs_view(r@) == split_lines(input@),
{
    let n = input.len();
    let mut lines: Vec<Vec<u8>> = Vec::new();
    let mut cur: Vec<u8> = Vec::new();
    let mut i: usize = 0;
    proof {
        assert(input@.skip(0) =~= input@);
        assert(cur@ =~= input@.subrange(0, 0));
        assert(seqs_view(lines@) + split_lines(input@) =~= split_lines(input@));
    }
    while i < n
        invariant
            0 <= i <= n == input@.len(),
            cur@.len() <= i,
            cur@ == input@.subrange(i - cur@.len(), i as int),
            forall|k: int| i - cur@.len() <= k < i ==> input@[k] != NL,
            split_lines(input@) == seqs_view(lines@) + split_lines(
                input@.skip(i - cur@.len()),
            ),
        decreases n - i,
    {
        let b = input[i];
        if b == NL {
            let ghost start = i - cur@.len();
            proof {
                let s = input@;
                lemma_find_byte_at(s.skip(start), NL, i - start);
                assert(s.skip(start).take(i - start) =~= s.subrange(start, i as int));
                assert(s.skip(start).skip(i - start + 1) =~= s.skip(i + 1));
                // one unfolding of split_lines at s.skip(start)
                assert(split_lines(s.skip(start)) == seq![
                    strip_cr(s.subrange(start, i as int)),
                ] + split_lines(s.skip(i + 1)));
            }
            if cur.len() > 0 && cur[cur.len() - 1] == CR {
                cur.pop();
            }
            assert(cur@ == strip_cr(input@.subrange(start, i as int)));
            lines.push(cur);
            cur = Vec::new();
            proof {
                assert(seqs_view(lines@) =~= seqs_view(lines@.drop_last()) + seq![
                    lines@[lines@.len() - 1]@,
                ]);
            }
            i = i + 1;
            assert(cur@ =~= input@.subrange(i as int, i as int));
        } else {
            cur.push(b);
            i = i + 1;
            assert(cur@ =~= input@.subrange(i - cur@.len(), i as int));
        }
    }
    if cur.len() > 0 {
        proof {
            let start = i - cur@.len();
            lemma_split_lines_last(input@.skip(start));
            assert(input@.skip(start) =~= input@.subrange(start, i as int));
            assert(seqs_view(lines@.push(cur)) =~= seqs_view(lines@) + seq![cur@]);
        }
        lines.push(cur);
    } else {
        assert(input@.skip(i as int) =~= Seq::<u8>::empty());
        assert(seqs_view(lines@) =~= seqs_view(lines@) + split_lines(Seq::<u8>::empty()));
    }
    lines
}

/// Splits a line into its tab-separated fields.
pub fn split_tabs_exec(line: &Vec<u8>) -> (r: Vec<Vec<u8>>)
    ensures
        seqs_view(r@) == split_tabs(line@),
{
    let n = line.len();
    let mut fields: Vec<Vec<u8>> = Vec::new();
    let mut cur: Vec<u8> = Vec::new();
    let mut i: usize = 0;
    proof {
        assert(line@.skip(0) =~= line@);
        assert(cur@ =~= line@.subrange(0, 0));
        assert(seqs_view(fields@) + split_tabs(line@) =~= split_tabs(line@));
    }
    while i < n
        invariant
            0 <= i <= n == line@.len(),
            cur@.len() <= i,
            cur@ == line@.subrange(i - cur@.len(), i as int),
            forall|k: int| i - cur@.len() <= k < i ==> line@[k] != TAB,
            split_tabs(line@) == seqs_view(fields@) + split_tabs(
                line@.skip(i - cur@.len()),
            ),
        decreases n - i,
    {
        let b = line[i];
        if b == TAB {
            let ghost start = i - cur@.len();
            proof {
                let s = line@;
                lemma_find_byte_at(s.skip(start), TAB, i - start);
                assert(s.skip(start).take(i - start) =~= s.subrange(start, i as int));
                assert(s.skip(start).skip(i - start + 1) =~= s.skip(i + 1));
                assert(split_tabs(s.skip(start)) == seq![s.subrange(start, i as int)]
                    + split_tabs(s.skip(i + 1)));
            }
            fields.push(cur);
            cur = Vec::new();
            proof {
                assert(seqs_view(fields@) =~= seqs_view(fields@.drop_last()) + seq![
                    fields@[fields@.len() - 1]@,
                ]);
            }
            i = i + 1;
            assert(cur@ =~= line@.subrange(i as int, i as int));
        } else {
            cur.push(b);
            i = i + 1;
            assert(cur@ =~= line@.subrange(i - cur@.len(), i as int));
        }
    }
    proof {
        let start = i - cur@.len();
        lemma_split_tabs_last(line@.skip(start));
        assert(line@.skip(start) =~= line@.subrange(start, i as int));
        assert(seqs_view(fields@.push(cur)) =~= seqs_view(fields@) + seq![cur@]);
    }
    fields.push(cur);
    fields
}

/// With an equal prefix of length `i`, the order is decided by the tails.
pub proof fn lemma_lex_skip_common(a: Seq<u8>, b: Seq<u8>, i: int)
    requires
        0 <= i <= a.len(),
        i <= b.len(),
        forall|j: int| 0 <= j < i ==> a[j] == b[j],
    ensures
        lex_lt(a, b) == lex_lt(a.skip(i), b.skip(i)),
    decreases i,
{
    if i == 0 {
        assert(a.skip(0) =~= a);
        assert(b.skip(0) =~= b);
    } else {
        lemma_lex_skip_common(a.drop_first(), b.drop_first(), i - 1);
        assert(a.drop_first().skip(i - 1) =~= a.skip(i));
        assert(b.drop_first().skip(i - 1) =~= b.skip(i));
    }
}

} // verus!
