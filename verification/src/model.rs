//! The mathematical model of the codec: what decoding a byte stream yields,
//! and what encoding a file writes, stated over sequences. The executable
//! decoder and encoder are verified against these functions, and the
//! round-trip law is proved about them.

use vstd::prelude::*;

use crate::number::is_float_text;
use crate::text::find_byte;
use crate::text::is_blank;
use crate::text::lex_lt;
use crate::text::split_lines;
use crate::text::split_tabs;
use crate::text::trim;
use crate::text::NL;
use crate::text::TAB;

verus! {

/// The `[DATA]` marker that separates the header from the data section.
pub open spec fn marker() -> Seq<u8> {
    seq![91u8, 68u8, 65u8, 84u8, 65u8, 93u8]
}

/// Model of a decoded file: attribute pairs and signal columns, each held in
/// strictly ascending key order. A signal value is the numeric text of one
/// data field.
pub ghost struct FileModel {
    pub attrs: Seq<(Seq<u8>, Seq<u8>)>,
    pub sigs: Seq<(Seq<u8>, Seq<Seq<u8>>)>,
}

/// Model of a decoding failure.
pub ghost enum ErrModel {
    /// the input ended before the `[DATA]` marker or the column-name line
    MissingData,
    /// a non-blank header line with no tab; carries the line
    EmptyAttr(Seq<u8>),
    /// a data field that is not numeric text; carries the trimmed field
    BadNumber(Seq<u8>),
}

/// Keys strictly ascending: sorted and free of duplicates.
pub open spec fn sorted_keys<V>(s: Seq<(Seq<u8>, V)>) -> bool {
    forall|i: int, j: int| 0 <= i < j < s.len() ==> lex_lt(s[i].0, s[j].0)
}

/// Insertion into a key-ordered association sequence; an equal key replaces
/// the old pair.
pub open spec fn insert_pair<V>(s: Seq<(Seq<u8>, V)>, k: Seq<u8>, v: V) -> Seq<(Seq<u8>, V)>
    decreases s.len(),
{
    if s.len() == 0 {
        seq![(k, v)]
    } else if lex_lt(k, s[0].0) {
        seq![(k, v)] + s
    } else if k == s[0].0 {
        seq![(k, v)] + s.drop_first()
    } else {
        seq![s[0]] + insert_pair(s.drop_first(), k, v)
    }
}

/// Insertion passes over every pair whose key is below the new key.
pub proof fn lemma_insert_pair_skip<V>(s: Seq<(Seq<u8>, V)>, k: Seq<u8>, v: V, idx: int)
    requires
        0 <= idx <= s.len(),
        forall|m: int| 0 <= m < idx ==> lex_lt(s[m].0, k),
    ensures
        insert_pair(s, k, v) == s.take(idx) + insert_pair(s.skip(idx), k, v),
    decreases idx,
{
    if idx == 0 {
        assert(s.take(0) =~= Seq::<(Seq<u8>, V)>::empty());
        assert(s.skip(0) =~= s);
        assert(s.take(0) + insert_pair(s, k, v) =~= insert_pair(s, k, v));
    } else {
        crate::text::lemma_lex_trichotomy(s[0].0, k);
        lemma_insert_pair_skip(s.drop_first(), k, v, idx - 1);
        assert(s.drop_first().take(idx - 1) =~= s.take(idx).drop_first());
        assert(s.drop_first().skip(idx - 1) =~= s.skip(idx));
        assert(seq![s[0]] + (s.drop_first().take(idx - 1) + insert_pair(s.skip(idx), k, v)) =~= s.take(
            idx,
        ) + insert_pair(s.skip(idx), k, v));
    }
}

/// Insertion keeps the keys strictly ascending, and introduces no key but
/// the inserted one.
pub proof fn lemma_insert_pair_sorted<V>(s: Seq<(Seq<u8>, V)>, k: Seq<u8>, v: V)
    requires
        sorted_keys(s),
    ensures
        sorted_keys(insert_pair(s, k, v)),
        forall|x: int|
            0 <= x < insert_pair(s, k, v).len() ==> (#[trigger] insert_pair(s, k, v)[x].0) == k
                || (exists|y: int| 0 <= y < s.len() && (#[trigger] s[y].0) == insert_pair(
                s,
                k,
                v,
            )[x].0),
    decreases s.len(),
{
    let r = insert_pair(s, k, v);
    if s.len() == 0 {
        assert(r[0].0 == k);
    } else if crate::text::lex_lt(k, s[0].0) {
        assert(r == seq![(k, v)] + s);
        assert forall|i: int, j: int| 0 <= i < j < r.len() implies crate::text::lex_lt(
            r[i].0,
            r[j].0,
        ) by {
            if i == 0 {
                if j > 1 {
                    crate::text::lemma_lex_transitive(k, s[0].0, s[j - 1].0);
                }
            }
        }
        assert forall|x: int| 0 <= x < r.len() implies (#[trigger] r[x].0) == k || (exists|y: int|
            0 <= y < s.len() && (#[trigger] s[y].0) == r[x].0) by {
            if x > 0 {
                assert(s[x - 1].0 == r[x].0);
            }
        }
    } else if k == s[0].0 {
        assert(r == seq![(k, v)] + s.drop_first());
        assert forall|i: int, j: int| 0 <= i < j < r.len() implies crate::text::lex_lt(
            r[i].0,
            r[j].0,
        ) by {
            if i == 0 {
                assert(r[j].0 == s[j].0);
            } else {
                assert(r[i].0 == s[i].0 && r[j].0 == s[j].0);
            }
        }
        assert forall|x: int| 0 <= x < r.len() implies (#[trigger] r[x].0) == k || (exists|y: int|
            0 <= y < s.len() && (#[trigger] s[y].0) == r[x].0) by {
            if x > 0 {
                assert(s[x].0 == r[x].0);
            }
        }
    } else {
        crate::text::lemma_lex_trichotomy(k, s[0].0);
        let tail = s.drop_first();
        assert(sorted_keys(tail)) by {
            assert(forall|i: int, j: int|
                0 <= i < j < tail.len() ==> crate::text::lex_lt(
                    #[trigger] tail[i].0,
                    #[trigger] tail[j].0,
                ));
        }
        lemma_insert_pair_sorted(tail, k, v);
        let rt = insert_pair(tail, k, v);
        assert(r == seq![s[0]] + rt);
        assert forall|i: int, j: int| 0 <= i < j < r.len() implies crate::text::lex_lt(
            r[i].0,
            r[j].0,
        ) by {
            if i == 0 {
                assert(r[j].0 == rt[j - 1].0);
                if rt[j - 1].0 == k {
                    assert(crate::text::lex_lt(s[0].0, k));
                } else {
                    let y = choose|y: int| 0 <= y < tail.len() && (#[trigger] tail[y].0) == rt[j
                        - 1].0;
                    assert(tail[y].0 == s[y + 1].0);
                    assert(crate::text::lex_lt(s[0].0, s[y + 1].0));
                }
            } else {
                assert(r[i].0 == rt[i - 1].0 && r[j].0 == rt[j - 1].0);
            }
        }
        assert forall|x: int| 0 <= x < r.len() implies (#[trigger] r[x].0) == k || (exists|y: int|
            0 <= y < s.len() && (#[trigger] s[y].0) == r[x].0) by {
            if x == 0 {
                assert(s[0].0 == r[0].0);
            } else {
                assert(r[x].0 == rt[x - 1].0);
                if rt[x - 1].0 != k {
                    let y = choose|y: int| 0 <= y < tail.len() && (#[trigger] tail[y].0) == rt[x
                        - 1].0;
                    assert(s[y + 1].0 == r[x].0);
                }
            }
        }
    }
}

/// The column names read from the fields of the name line: each field
/// trimmed, empty fields dropped.
pub open spec fn names_of(fields: Seq<Seq<u8>>) -> Seq<Seq<u8>>
    decreases fields.len(),
{
    if fields.len() == 0 {
        Seq::empty()
    } else {
        let rest = names_of(fields.drop_first());
        if trim(fields[0]).len() == 0 {
            rest
        } else {
            seq![trim(fields[0])] + rest
        }
    }
}

/// One data row folded into the columns: of the row's fields, the first
/// `cols.len()` are trimmed, checked against the numeric grammar and
/// appended to their columns; extra fields are ignored, missing fields leave
/// their columns untouched.
pub open spec fn add_row(fields: Seq<Seq<u8>>, cols: Seq<Seq<Seq<u8>>>, j: int) -> Result<
    Seq<Seq<Seq<u8>>>,
    ErrModel,
>
    decreases cols.len() - j,
{
    if j < 0 || j >= cols.len() || j >= fields.len() {
        Ok(cols)
    } else {
        let t = trim(fields[j]);
        if is_float_text(t) {
            add_row(fields, cols.update(j, cols[j].push(t)), j + 1)
        } else {
            Err(ErrModel::BadNumber(t))
        }
    }
}

/// The columns zipped with their names into a key-ordered signal sequence, a
/// later duplicate name replacing an earlier one.
pub open spec fn zip_sigs(
    names: Seq<Seq<u8>>,
    cols: Seq<Seq<Seq<u8>>>,
    j: int,
    acc: Seq<(Seq<u8>, Seq<Seq<u8>>)>,
) -> Seq<(Seq<u8>, Seq<Seq<u8>>)>
    decreases names.len() - j,
{
    if j < 0 || j >= names.len() {
        acc
    } else {
        let col = if j < cols.len() {
            cols[j]
        } else {
            Seq::empty()
        };
        zip_sigs(names, cols, j + 1, insert_pair(acc, names[j], col))
    }
}

/// Header phase: blank lines skipped; the `[DATA]` marker hands over to the
/// name line; any other line must hold a tab and becomes an attribute, its
/// key and value trimmed.
pub open spec fn dec_attrs(ls: Seq<Seq<u8>>, i: int, acc: Seq<(Seq<u8>, Seq<u8>)>) -> Result<
    FileModel,
    ErrModel,
>
    decreases ls.len() - i, 2int,
{
    if i < 0 || i >= ls.len() {
        Err(ErrModel::MissingData)
    } else if is_blank(ls[i]) {
        dec_attrs(ls, i + 1, acc)
    } else if trim(ls[i]) == marker() {
        dec_names(ls, i + 1, acc)
    } else if find_byte(ls[i], TAB) == ls[i].len() {
        Err(ErrModel::EmptyAttr(ls[i]))
    } else {
        let p = find_byte(ls[i], TAB);
        dec_attrs(ls, i + 1, insert_pair(acc, trim(ls[i].take(p)), trim(ls[i].skip(p + 1))))
    }
}

/// Name phase: the first non-blank line after the marker names the columns.
pub open spec fn dec_names(ls: Seq<Seq<u8>>, i: int, acc: Seq<(Seq<u8>, Seq<u8>)>) -> Result<
    FileModel,
    ErrModel,
>
    decreases ls.len() - i, 1int,
{
    if i < 0 || i >= ls.len() {
        Err(ErrModel::MissingData)
    } else if is_blank(ls[i]) {
        dec_names(ls, i + 1, acc)
    } else {
        let names = names_of(split_tabs(ls[i]));
        dec_rows(ls, i + 1, acc, names, Seq::new(names.len(), |j: int| Seq::<Seq<u8>>::empty()))
    }
}

/// Row phase: every further non-blank line is a data row; the end of input
/// completes the file.
pub open spec fn dec_rows(
    ls: Seq<Seq<u8>>,
    i: int,
    acc: Seq<(Seq<u8>, Seq<u8>)>,
    names: Seq<Seq<u8>>,
    cols: Seq<Seq<Seq<u8>>>,
) -> Result<FileModel, ErrModel>
    decreases ls.len() - i, 0int,
{
    if i < 0 || i >= ls.len() {
        Ok(FileModel { attrs: acc, sigs: zip_sigs(names, cols, 0, Seq::empty()) })
    } else if is_blank(ls[i]) {
        dec_rows(ls, i + 1, acc, names, cols)
    } else {
        match add_row(split_tabs(ls[i]), cols, 0) {
            Ok(c2) => dec_rows(ls, i + 1, acc, names, c2),
            Err(e) => Err(e),
        }
    }
}

/// What decoding a byte stream yields.
pub open spec fn spec_decode(s: Seq<u8>) -> Result<FileModel, ErrModel> {
    dec_attrs(split_lines(s), 0, Seq::empty())
}

/// Each item followed by one tab.
pub open spec fn join_tab(items: Seq<Seq<u8>>) -> Seq<u8>
    decreases items.len(),
{
    if items.len() == 0 {
        Seq::empty()
    } else {
        items[0] + seq![TAB] + join_tab(items.drop_first())
    }
}

/// Each line followed by one newline.
pub open spec fn join_nl(ls: Seq<Seq<u8>>) -> Seq<u8>
    decreases ls.len(),
{
    if ls.len() == 0 {
        Seq::empty()
    } else {
        ls[0] + seq![NL] + join_nl(ls.drop_first())
    }
}

/// Appending one more item to a tab-joined sequence.
pub proof fn lemma_join_tab_snoc(x: Seq<Seq<u8>>, l: Seq<u8>)
    ensures
        join_tab(x.push(l)) == join_tab(x) + l + seq![TAB],
    decreases x.len(),
{
    if x.len() == 0 {
        assert(x.push(l)[0] == l);
        assert(x.push(l).drop_first() =~= Seq::<Seq<u8>>::empty());
        assert(join_tab(x) + l + seq![TAB] =~= l + seq![TAB] + join_tab(
            Seq::<Seq<u8>>::empty(),
        ));
    } else {
        assert(x.push(l)[0] == x[0]);
        assert(x.push(l).drop_first() =~= x.drop_first().push(l));
        lemma_join_tab_snoc(x.drop_first(), l);
        assert(x[0] + seq![TAB] + (join_tab(x.drop_first()) + l + seq![TAB]) =~= (x[0] + seq![TAB]
            + join_tab(x.drop_first())) + l + seq![TAB]);
    }
}

/// Appending one more line to a newline-joined sequence.
pub proof fn lemma_join_nl_snoc(x: Seq<Seq<u8>>, l: Seq<u8>)
    ensures
        join_nl(x.push(l)) == join_nl(x) + l + seq![NL],
    decreases x.len(),
{
    if x.len() == 0 {
        assert(x.push(l)[0] == l);
        assert(x.push(l).drop_first() =~= Seq::<Seq<u8>>::empty());
        assert(join_nl(x) + l + seq![NL] =~= l + seq![NL] + join_nl(Seq::<Seq<u8>>::empty()));
    } else {
        assert(x.push(l)[0] == x[0]);
        assert(x.push(l).drop_first() =~= x.drop_first().push(l));
        lemma_join_nl_snoc(x.drop_first(), l);
        assert(x[0] + seq![NL] + (join_nl(x.drop_first()) + l + seq![NL]) =~= (x[0] + seq![NL]
            + join_nl(x.drop_first())) + l + seq![NL]);
    }
}

/// The header lines: one `key<TAB>value` line per attribute, in key order.
pub open spec fn attr_lines(attrs: Seq<(Seq<u8>, Seq<u8>)>) -> Seq<Seq<u8>> {
    Seq::new(attrs.len(), |i: int| attrs[i].0 + seq![TAB] + attrs[i].1)
}

/// The column-name line: every signal name followed by a tab.
pub open spec fn names_line(sigs: Seq<(Seq<u8>, Seq<Seq<u8>>)>) -> Seq<u8> {
    join_tab(Seq::new(sigs.len(), |j: int| sigs[j].0))
}

/// How many data rows the encoder writes: the length of the first column in
/// key order.
pub open spec fn row_count(sigs: Seq<(Seq<u8>, Seq<Seq<u8>>)>) -> nat {
    if sigs.len() == 0 {
        0
    } else {
        sigs[0].1.len()
    }
}

/// One data row: each column's value at `r`, each followed by a tab.
pub open spec fn row_line(sigs: Seq<(Seq<u8>, Seq<Seq<u8>>)>, r: int) -> Seq<u8> {
    join_tab(Seq::new(sigs.len(), |j: int| sigs[j].1[r]))
}

/// All the lines the encoder writes, in order.
pub open spec fn enc_lines(m: FileModel) -> Seq<Seq<u8>> {
    attr_lines(m.attrs) + seq![Seq::<u8>::empty()] + seq![marker()] + seq![names_line(m.sigs)]
        + Seq::new(row_count(m.sigs), |r: int| row_line(m.sigs, r))
}

/// What encoding a file writes.
pub open spec fn spec_encode(m: FileModel) -> Seq<u8> {
    join_nl(enc_lines(m))
}

/// A key as the encoder writes it and the decoder reads it back: non-empty,
/// with non-whitespace ends (so trimming keeps it), free of tabs and
/// newlines.
pub open spec fn clean_key(s: Seq<u8>) -> bool {
    &&& s.len() > 0
    &&& !crate::text::is_ws(s[0])
    &&& !crate::text::is_ws(s[s.len() - 1])
    &&& forall|k: int| 0 <= k < s.len() ==> s[k] != TAB && s[k] != NL
}

/// An attribute value that survives the trip: empty, or with non-whitespace
/// ends and no newline. A tab inside a value is kept, since only the first
/// tab of a header line splits it.
pub open spec fn clean_value(s: Seq<u8>) -> bool {
    ||| s.len() == 0
    ||| (!crate::text::is_ws(s[0]) && !crate::text::is_ws(s[s.len() - 1]) && forall|k: int|
        0 <= k < s.len() ==> s[k] != NL)
}

/// Attributes the encoder can write so that decoding reads them back: keys
/// strictly ascending and clean, values clean, and no attribute that a
/// decoder would mistake for the `[DATA]` marker (a key `[DATA]` with an
/// empty value).
pub open spec fn wf_attrs(attrs: Seq<(Seq<u8>, Seq<u8>)>) -> bool {
    &&& sorted_keys(attrs)
    &&& forall|i: int|
        0 <= i < attrs.len() ==> clean_key(#[trigger] attrs[i].0) && clean_value(attrs[i].1)
    &&& forall|i: int|
        0 <= i < attrs.len() ==> !(#[trigger] attrs[i].0 == marker() && attrs[i].1.len() == 0)
}

/// Signals the encoder can write so that decoding reads them back: at least
/// one signal, names strictly ascending and clean, all columns of the same
/// length, every value numeric text.
pub open spec fn wf_sigs(sigs: Seq<(Seq<u8>, Seq<Seq<u8>>)>) -> bool {
    &&& sorted_keys(sigs)
    &&& sigs.len() > 0
    &&& forall|j: int| 0 <= j < sigs.len() ==> clean_key(#[trigger] sigs[j].0)
    &&& forall|j: int| 0 <= j < sigs.len() ==> (#[trigger] sigs[j].1).len() == row_count(sigs)
    &&& forall|j: int, r: int|
        0 <= j < sigs.len() && 0 <= r < sigs[j].1.len() ==> is_float_text(#[trigger] sigs[j].1[r])
}

/// A file whose encoding decodes back to itself.
pub open spec fn wf_file(m: FileModel) -> bool {
    wf_attrs(m.attrs) && wf_sigs(m.sigs)
}

} // verus!
