//! The file type and its decoder and encoder.

use vstd::prelude::*;

use crate::model::add_row;
use crate::model::attr_lines;
use crate::model::enc_lines;
use crate::model::join_nl;
use crate::model::join_tab;
use crate::model::lemma_join_nl_snoc;
use crate::model::lemma_join_tab_snoc;
use crate::model::names_line;
use crate::model::row_count;
use crate::model::row_line;
use crate::model::spec_encode;
use crate::model::dec_attrs;
use crate::model::dec_names;
use crate::model::dec_rows;
use crate::model::insert_pair;
use crate::model::lemma_insert_pair_skip;
use crate::model::marker;
use crate::model::names_of;
use crate::model::spec_decode;
use crate::model::zip_sigs;
use crate::model::ErrModel;
use crate::model::FileModel;
use crate::number::is_float_bytes;
use crate::text::cmp_bytes;
use crate::text::find_byte_exec;
use crate::text::is_blank;
use crate::text::seqs_view;
use crate::text::push_bytes;
use crate::text::split_lines;
use crate::text::split_lines_exec;
use crate::text::split_tabs;
use crate::text::split_tabs_exec;
use crate::text::sub_bytes;
use crate::text::trim;
use crate::text::trim_bytes;
use crate::text::ByteOrder;
use crate::text::NL;
use crate::text::TAB;

verus! {

/// One header attribute: a free-form key/value pair.
#[derive(Debug)]
pub struct Attr {
    pub key: Vec<u8>,
    pub value: Vec<u8>,
}

/// One signal: a named column of numeric values, each value kept as its
/// numeric text.
#[derive(Debug)]
pub struct Signal {
    pub name: Vec<u8>,
    pub values: Vec<Vec<u8>>,
}

/// A decoded file: attributes and signals, each in strictly ascending key
/// order, which is also the order in which they are written back.
#[derive(Debug)]
pub struct DatFile {
    pub attributes: Vec<Attr>,
    pub signals: Vec<Signal>,
}

/// How a decoding fails.
#[derive(Debug)]
pub enum ReadError {
    /// an error of the byte-stream source, reported by the caller that read it
    IOError(String),
    /// a data field that is not numeric text; carries the trimmed field
    ParseFloatError(Vec<u8>),
    /// a non-blank header line with no tab; carries the line
    EmptyAttr(Vec<u8>),
    /// the input ended before the `[DATA]` marker or the column-name line
    MissingData,
}

pub open spec fn attrs_view(s: Seq<Attr>) -> Seq<(Seq<u8>, Seq<u8>)> {
    Seq::new(s.len(), |i: int| (s[i].key@, s[i].value@))
}

pub open spec fn sigs_view(s: Seq<Signal>) -> Seq<(Seq<u8>, Seq<Seq<u8>>)> {
    Seq::new(s.len(), |i: int| (s[i].name@, seqs_view(s[i].values@)))
}

impl View for DatFile {
    type V = FileModel;

    open spec fn view(&self) -> FileModel {
        FileModel { attrs: attrs_view(self.attributes@), sigs: sigs_view(self.signals@) }
    }
}

impl DatFile {
    /// A file with no attributes and no signals.
    pub fn new() -> (r: DatFile)
        ensures
            r@.attrs == Seq::<(Seq<u8>, Seq<u8>)>::empty(),
            r@.sigs == Seq::<(Seq<u8>, Seq<Seq<u8>>)>::empty(),
    {
        let r = DatFile { attributes: Vec::new(), signals: Vec::new() };
        proof {
            assert(r@.attrs =~= Seq::<(Seq<u8>, Seq<u8>)>::empty());
            assert(r@.sigs =~= Seq::<(Seq<u8>, Seq<Seq<u8>>)>::empty());
        }
        r
    }
}

/// Whether two byte vectors hold the same bytes.
fn bytes_eq(a: &Vec<u8>, b: &Vec<u8>) -> (r: bool)
    ensures
        r == (a@ == b@),
{
    if a.len() != b.len() {
        return false;
    }
    let n = a.len();
    let mut k: usize = 0;
    while k < n
        invariant
            0 <= k <= n == a@.len(),
            n == b@.len(),
            forall|j: int| 0 <= j < k ==> a@[j] == b@[j],
        decreases n - k,
    {
        if a[k] != b[k] {
            return false;
        }
        k = k + 1;
    }
    proof {
        assert(a@ =~= b@);
    }
    true
}

/// Whether two columns hold the same values.
fn col_eq(a: &Vec<Vec<u8>>, b: &Vec<Vec<u8>>) -> (r: bool)
    ensures
        r == (seqs_view(a@) == seqs_view(b@)),
{
    if a.len() != b.len() {
        proof {
            assert(seqs_view(a@).len() != seqs_view(b@).len());
        }
        return false;
    }
    let n = a.len();
    let mut k: usize = 0;
    while k < n
        invariant
            0 <= k <= n == a@.len(),
            n == b@.len(),
            forall|j: int| 0 <= j < k ==> #[trigger] a@[j]@ == b@[j]@,
        decreases n - k,
    {
        if !bytes_eq(&a[k], &b[k]) {
            proof {
                assert(seqs_view(a@)[k as int] != seqs_view(b@)[k as int]);
            }
            return false;
        }
        k = k + 1;
    }
    proof {
        assert(seqs_view(a@) =~= seqs_view(b@));
    }
    true
}

impl PartialEq for DatFile {
    /// Two files are equal when their attribute and signal content is: the
    /// same pairs and the same named columns, in the same (canonical) order.
    fn eq(&self, other: &DatFile) -> (r: bool) {
        if self.attributes.len() != other.attributes.len() {
            proof {
                assert(self@.attrs.len() != other@.attrs.len());
            }
            return false;
        }
        if self.signals.len() != other.signals.len() {
            proof {
                assert(self@.sigs.len() != other@.sigs.len());
            }
            return false;
        }
        let na = self.attributes.len();
        let mut k: usize = 0;
        while k < na
            invariant
                0 <= k <= na == self.attributes@.len(),
                na == other.attributes@.len(),
                forall|j: int|
                    0 <= j < k ==> #[trigger] attrs_view(self.attributes@)[j] == attrs_view(
                        other.attributes@,
                    )[j],
            decreases na - k,
        {
            if !bytes_eq(&self.attributes[k].key, &other.attributes[k].key) || !bytes_eq(
                &self.attributes[k].value,
                &other.attributes[k].value,
            ) {
                proof {
                    assert(attrs_view(self.attributes@)[k as int] != attrs_view(
                        other.attributes@,
                    )[k as int]);
                    assert(self@.attrs != other@.attrs);
                }
                return false;
            }
            k = k + 1;
        }
        let ns = self.signals.len();
        let mut q: usize = 0;
        proof {
            assert(self@.attrs =~= other@.attrs);
        }
        while q < ns
            invariant
                0 <= q <= ns == self.signals@.len(),
                ns == other.signals@.len(),
                self@.attrs == other@.attrs,
                forall|j: int|
                    0 <= j < q ==> #[trigger] sigs_view(self.signals@)[j] == sigs_view(
                        other.signals@,
                    )[j],
            decreases ns - q,
        {
            if !bytes_eq(&self.signals[q].name, &other.signals[q].name) || !col_eq(
                &self.signals[q].values,
                &other.signals[q].values,
            ) {
                proof {
                    assert(sigs_view(self.signals@)[q as int] != sigs_view(
                        other.signals@,
                    )[q as int]);
                    assert(self@.sigs != other@.sigs);
                }
                return false;
            }
            q = q + 1;
        }
        proof {
            assert(self@.sigs =~= other@.sigs);
        }
        true
    }
}

impl vstd::std_specs::cmp::PartialEqSpecImpl for DatFile {
    open spec fn obeys_eq_spec() -> bool {
        true
    }

    open spec fn eq_spec(&self, other: &DatFile) -> bool {
        self@ == other@
    }
}

/// Whether the trimmed line is the `[DATA]` marker.
fn is_marker_bytes(t: &Vec<u8>) -> (r: bool)
    ensures
        r == (t@ == marker()),
{
    if t.len() == 6 && t[0] == 91 && t[1] == 68 && t[2] == 65 && t[3] == 84 && t[4] == 65 && t[5]
        == 93 {
        proof {
            assert(t@ =~= marker());
        }
        true
    } else {
        proof {
            if t@ == marker() {
                assert(t@.len() == 6);
                assert(t@[0] == 91 && t@[1] == 68 && t@[2] == 65 && t@[3] == 84 && t@[4] == 65
                    && t@[5] == 93);
            }
        }
        false
    }
}

/// Inserts an attribute at its place in key order; an equal key replaces the
/// old value.
fn insert_attr(attrs: &mut Vec<Attr>, key: Vec<u8>, value: Vec<u8>)
    ensures
        attrs_view(final(attrs)@) == insert_pair(attrs_view(old(attrs)@), key@, value@),
{
    let ghost kv = key@;
    let ghost vv = value@;
    let ghost a0 = attrs_view(old(attrs)@);
    let n = attrs.len();
    let mut idx: usize = 0;
    while idx < n
        invariant
            0 <= idx <= n == attrs@.len(),
            *attrs == *old(attrs),
            key@ == kv,
            value@ == vv,
            a0 == attrs_view(attrs@),
            forall|m: int| 0 <= m < idx ==> crate::text::lex_lt(a0[m].0, kv),
        decreases n - idx,
    {
        let o = cmp_bytes(&key, &attrs[idx].key);
        proof {
            assert(a0[idx as int] == (attrs@[idx as int].key@, attrs@[idx as int].value@));
        }
        match o {
            ByteOrder::Less => {
                proof {
                    lemma_insert_pair_skip(a0, kv, vv, idx as int);
                    assert(a0.skip(idx as int)[0] == a0[idx as int]);
                    assert(insert_pair(a0.skip(idx as int), kv, vv) == seq![(kv, vv)] + a0.skip(
                        idx as int,
                    ));
                }
                attrs.insert(idx, Attr { key, value });
                proof {
                    assert(attrs_view(attrs@) =~= a0.take(idx as int) + (seq![(kv, vv)] + a0.skip(
                        idx as int,
                    )));
                }
                return;
            },
            ByteOrder::Equal => {
                proof {
                    lemma_insert_pair_skip(a0, kv, vv, idx as int);
                    assert(a0.skip(idx as int)[0] == a0[idx as int]);
                    crate::text::lemma_lex_trichotomy(kv, attrs@[idx as int].key@);
                    assert(insert_pair(a0.skip(idx as int), kv, vv) == seq![(kv, vv)] + a0.skip(
                        idx as int,
                    ).drop_first());
                }
                attrs.remove(idx);
                attrs.insert(idx, Attr { key, value });
                proof {
                    assert(a0.skip(idx as int).drop_first() =~= a0.skip(idx + 1));
                    assert(attrs_view(attrs@) =~= a0.take(idx as int) + (seq![(kv, vv)] + a0.skip(
                        idx + 1,
                    )));
                }
                return;
            },
            ByteOrder::Greater => {
                idx = idx + 1;
            },
        }
    }
    proof {
        lemma_insert_pair_skip(a0, kv, vv, idx as int);
        assert(a0.skip(idx as int) =~= Seq::<(Seq<u8>, Seq<u8>)>::empty());
    }
    attrs.push(Attr { key, value });
    proof {
        assert(attrs_view(attrs@) =~= a0.take(a0.len() as int) + insert_pair(
            Seq::<(Seq<u8>, Seq<u8>)>::empty(),
            kv,
            vv,
        ));
    }
}

/// Inserts a signal at its place in key order; an equal name replaces the
/// old column.
fn insert_sig(sigs: &mut Vec<Signal>, name: Vec<u8>, values: Vec<Vec<u8>>)
    ensures
        sigs_view(final(sigs)@) == insert_pair(sigs_view(old(sigs)@), name@, seqs_view(values@)),
{
    let ghost kv = name@;
    let ghost vv = seqs_view(values@);
    let ghost a0 = sigs_view(old(sigs)@);
    let n = sigs.len();
    let mut idx: usize = 0;
    while idx < n
        invariant
            0 <= idx <= n == sigs@.len(),
            *sigs == *old(sigs),
            name@ == kv,
            seqs_view(values@) == vv,
            a0 == sigs_view(sigs@),
            forall|m: int| 0 <= m < idx ==> crate::text::lex_lt(a0[m].0, kv),
        decreases n - idx,
    {
        let o = cmp_bytes(&name, &sigs[idx].name);
        proof {
            assert(a0[idx as int] == (sigs@[idx as int].name@, seqs_view(sigs@[idx as int].values@)));
        }
        match o {
            ByteOrder::Less => {
                proof {
                    lemma_insert_pair_skip(a0, kv, vv, idx as int);
                    assert(a0.skip(idx as int)[0] == a0[idx as int]);
                    assert(insert_pair(a0.skip(idx as int), kv, vv) == seq![(kv, vv)] + a0.skip(
                        idx as int,
                    ));
                }
                sigs.insert(idx, Signal { name, values });
                proof {
                    assert(sigs_view(sigs@) =~= a0.take(idx as int) + (seq![(kv, vv)] + a0.skip(
                        idx as int,
                    )));
                }
                return;
            },
            ByteOrder::Equal => {
                proof {
                    lemma_insert_pair_skip(a0, kv, vv, idx as int);
                    assert(a0.skip(idx as int)[0] == a0[idx as int]);
                    crate::text::lemma_lex_trichotomy(kv, sigs@[idx as int].name@);
                    assert(insert_pair(a0.skip(idx as int), kv, vv) == seq![(kv, vv)] + a0.skip(
                        idx as int,
                    ).drop_first());
                }
                sigs.remove(idx);
                sigs.insert(idx, Signal { name, values });
                proof {
                    assert(a0.skip(idx as int).drop_first() =~= a0.skip(idx + 1));
                    assert(sigs_view(sigs@) =~= a0.take(idx as int) + (seq![(kv, vv)] + a0.skip(
                        idx + 1,
                    )));
                }
                return;
            },
            ByteOrder::Greater => {
                idx = idx + 1;
            },
        }
    }
    proof {
        lemma_insert_pair_skip(a0, kv, vv, idx as int);
        assert(a0.skip(idx as int) =~= Seq::<(Seq<u8>, Seq<Seq<u8>>)>::empty());
    }
    sigs.push(Signal { name, values });
    proof {
        assert(sigs_view(sigs@) =~= a0.take(a0.len() as int) + insert_pair(
            Seq::<(Seq<u8>, Seq<Seq<u8>>)>::empty(),
            kv,
            vv,
        ));
    }
}

/// View of a vector of columns as a sequence of columns.
pub open spec fn cols_view(c: Seq<Vec<Vec<u8>>>) -> Seq<Seq<Seq<u8>>> {
    Seq::new(c.len(), |i: int| seqs_view(c[i]@))
}

/// One empty column per name.
fn empty_cols(n: usize) -> (r: Vec<Vec<Vec<u8>>>)
    ensures
        r@.len() == n,
        cols_view(r@) == Seq::new(n as nat, |j: int| Seq::<Seq<u8>>::empty()),
{
    let mut r: Vec<Vec<Vec<u8>>> = Vec::new();
    let mut i: usize = 0;
    while i < n
        invariant
            0 <= i <= n,
            r@.len() == i,
            forall|j: int| 0 <= j < i ==> seqs_view(#[trigger] r@[j]@) == Seq::<Seq<u8>>::empty(),
        decreases n - i,
    {
        let c: Vec<Vec<u8>> = Vec::new();
        proof {
            assert(seqs_view(c@) =~= Seq::<Seq<u8>>::empty());
        }
        r.push(c);
        i = i + 1;
    }
    proof {
        assert(cols_view(r@) =~= Seq::new(n as nat, |j: int| Seq::<Seq<u8>>::empty()));
    }
    r
}

/// Builds the column names from the fields of the name line: each field
/// trimmed, empty fields dropped.
fn names_from_fields(fields: &Vec<Vec<u8>>) -> (r: Vec<Vec<u8>>)
    ensures
        seqs_view(r@) == names_of(seqs_view(fields@)),
{
    let ghost f = seqs_view(fields@);
    let mut names: Vec<Vec<u8>> = Vec::new();
    let mut k: usize = 0;
    proof {
        assert(f.skip(0) =~= f);
        assert(seqs_view(names@) + names_of(f) =~= names_of(f));
    }
    while k < fields.len()
        invariant
            0 <= k <= fields@.len(),
            f == seqs_view(fields@),
            names_of(f) == seqs_view(names@) + names_of(f.skip(k as int)),
        decreases fields@.len() - k,
    {
        let t = trim_bytes(&fields[k]);
        let ghost pre = seqs_view(names@);
        proof {
            let rest = f.skip(k as int);
            assert(rest[0] == f[k as int]);
            assert(f[k as int] == fields@[k as int]@);
            assert(rest.drop_first() =~= f.skip(k + 1));
        }
        if t.len() > 0 {
            names.push(t);
            proof {
                assert(seqs_view(names@) =~= pre + seq![trim(f[k as int])]);
                assert(pre + (seq![trim(f[k as int])] + names_of(f.skip(k + 1))) =~= (pre + seq![
                    trim(f[k as int]),
                ]) + names_of(f.skip(k + 1)));
            }
        }
        k = k + 1;
    }
    proof {
        assert(f.skip(f.len() as int) =~= Seq::<Seq<u8>>::empty());
        assert(seqs_view(names@) + Seq::<Seq<u8>>::empty() =~= seqs_view(names@));
    }
    names
}

/// How the decoder's result relates to the model: success yields exactly the
/// modelled file, and each error is returned exactly when the model says so.
pub open spec fn decode_matches(s: Seq<u8>, r: Result<DatFile, ReadError>) -> bool {
    match r {
        Ok(df) => spec_decode(s) == Ok::<FileModel, ErrModel>(df@),
        Err(e) => match e {
            ReadError::IOError(_) => false,
            ReadError::ParseFloatError(f) => spec_decode(s) == Err::<FileModel, ErrModel>(
                ErrModel::BadNumber(f@),
            ),
            ReadError::EmptyAttr(l) => spec_decode(s) == Err::<FileModel, ErrModel>(
                ErrModel::EmptyAttr(l@),
            ),
            ReadError::MissingData => spec_decode(s) == Err::<FileModel, ErrModel>(
                ErrModel::MissingData,
            ),
        },
    }
}

impl DatFile {
    /// Decodes a byte stream: attribute lines up to the `[DATA]` marker, the
    /// column-name line, then tab-separated data rows, blank lines skipped
    /// throughout.
    pub fn decode(input: &[u8]) -> (r: Result<DatFile, ReadError>)
        ensures
            decode_matches(input@, r),
    {
        let lines = split_lines_exec(input);
        let ghost ls = seqs_view(lines@);
        let n = lines.len();
        let mut i: usize = 0;
        let mut attrs: Vec<Attr> = Vec::new();
        let mut found_marker: bool = false;
        proof {
            assert(attrs_view(attrs@) =~= Seq::<(Seq<u8>, Seq<u8>)>::empty());
        }
        while i < n && !found_marker
            invariant
                0 <= i <= n == lines@.len(),
                ls == seqs_view(lines@),
                ls == split_lines(input@),
                !found_marker ==> dec_attrs(ls, 0, Seq::empty()) == dec_attrs(
                    ls,
                    i as int,
                    attrs_view(attrs@),
                ),
                found_marker ==> dec_attrs(ls, 0, Seq::empty()) == dec_names(
                    ls,
                    i as int,
                    attrs_view(attrs@),
                ),
            decreases n - i,
        {
            let t = trim_bytes(&lines[i]);
            proof {
                assert(ls[i as int] == lines@[i as int]@);
            }
            if t.len() == 0 {
                proof {
                    assert(is_blank(ls[i as int]));
                }
                i = i + 1;
            } else if is_marker_bytes(&t) {
                proof {
                    assert(trim(ls[i as int]) == marker());
                    assert(!is_blank(ls[i as int]));
                }
                found_marker = true;
                i = i + 1;
            } else {
                let p = find_byte_exec(&lines[i], TAB);
                if p == lines[i].len() {
                    let l = sub_bytes(&lines[i], 0, lines[i].len());
                    proof {
                        assert(l@ =~= ls[i as int]);
                        assert(dec_attrs(ls, i as int, attrs_view(attrs@)) == Err::<
                            FileModel,
                            ErrModel,
                        >(ErrModel::EmptyAttr(ls[i as int])));
                    }
                    return Err(ReadError::EmptyAttr(l));
                }
                let keyv = sub_bytes(&lines[i], 0, p);
                let key = trim_bytes(&keyv);
                let valv = sub_bytes(&lines[i], p + 1, lines[i].len());
                let value = trim_bytes(&valv);
                let ghost a_pre = attrs_view(attrs@);
                proof {
                    assert(keyv@ =~= ls[i as int].take(p as int));
                    assert(valv@ =~= ls[i as int].skip(p + 1));
                    assert(dec_attrs(ls, i as int, a_pre) == dec_attrs(
                        ls,
                        i + 1,
                        insert_pair(
                            a_pre,
                            trim(ls[i as int].take(p as int)),
                            trim(ls[i as int].skip(p + 1)),
                        ),
                    ));
                }
                insert_attr(&mut attrs, key, value);
                i = i + 1;
            }
        }
        if !found_marker {
            return Err(ReadError::MissingData);
        }
        // the column-name line
        let mut got_names: bool = false;
        let mut names: Vec<Vec<u8>> = Vec::new();
        while i < n && !got_names
            invariant
                0 <= i <= n == lines@.len(),
                ls == seqs_view(lines@),
                ls == split_lines(input@),
                !got_names ==> dec_attrs(ls, 0, Seq::empty()) == dec_names(
                    ls,
                    i as int,
                    attrs_view(attrs@),
                ),
                got_names ==> dec_attrs(ls, 0, Seq::empty()) == dec_rows(
                    ls,
                    i as int,
                    attrs_view(attrs@),
                    seqs_view(names@),
                    Seq::new(seqs_view(names@).len(), |j: int| Seq::<Seq<u8>>::empty()),
                ),
            decreases n - i,
        {
            let t = trim_bytes(&lines[i]);
            proof {
                assert(ls[i as int] == lines@[i as int]@);
            }
            if t.len() == 0 {
                proof {
                    assert(is_blank(ls[i as int]));
                }
                i = i + 1;
            } else {
                let fields = split_tabs_exec(&lines[i]);
                names = names_from_fields(&fields);
                proof {
                    assert(!is_blank(ls[i as int]));
                    assert(seqs_view(names@) == names_of(split_tabs(ls[i as int])));
                }
                got_names = true;
                i = i + 1;
            }
        }
        if !got_names {
            return Err(ReadError::MissingData);
        }
        // the data rows
        let ghost nnames = seqs_view(names@);
        let mut cols = empty_cols(names.len());
        proof {
            assert(nnames.len() == names@.len());
        }
        while i < n
            invariant
                0 <= i <= n == lines@.len(),
                ls == seqs_view(lines@),
                ls == split_lines(input@),
                nnames == seqs_view(names@),
                cols@.len() == nnames.len(),
                dec_attrs(ls, 0, Seq::empty()) == dec_rows(
                    ls,
                    i as int,
                    attrs_view(attrs@),
                    nnames,
                    cols_view(cols@),
                ),
            decreases n - i,
        {
            let t = trim_bytes(&lines[i]);
            proof {
                assert(ls[i as int] == lines@[i as int]@);
            }
            if t.len() == 0 {
                proof {
                    assert(is_blank(ls[i as int]));
                }
                i = i + 1;
            } else {
                let fields = split_tabs_exec(&lines[i]);
                let ghost f = seqs_view(fields@);
                let ghost c_start = cols_view(cols@);
                let m = if fields.len() < cols.len() {
                    fields.len()
                } else {
                    cols.len()
                };
                let mut j: usize = 0;
                while j < m
                    invariant
                        0 <= j <= m,
                        m <= fields@.len(),
                        m <= cols@.len(),
                        m == fields@.len() || m == cols@.len(),
                        f == seqs_view(fields@),
                        cols@.len() == c_start.len(),
                        add_row(f, c_start, 0) == add_row(f, cols_view(cols@), j as int),
                        0 <= i < lines@.len(),
                        ls == seqs_view(lines@),
                        ls == split_lines(input@),
                        f == split_tabs(ls[i as int]),
                        !is_blank(ls[i as int]),
                        dec_attrs(ls, 0, Seq::empty()) == dec_rows(
                            ls,
                            i as int,
                            attrs_view(attrs@),
                            nnames,
                            c_start,
                        ),
                    decreases m - j,
                {
                    let tj = trim_bytes(&fields[j]);
                    proof {
                        assert(f[j as int] == fields@[j as int]@);
                    }
                    if is_float_bytes(&tj) {
                        let ghost c_pre = cols_view(cols@);
                        proof {
                            assert(c_pre[j as int] == seqs_view(cols@[j as int]@));
                            assert(add_row(f, c_pre, j as int) == add_row(
                                f,
                                c_pre.update(j as int, c_pre[j as int].push(trim(f[j as int]))),
                                j + 1,
                            ));
                        }
                        cols[j].push(tj);
                        proof {
                            assert(seqs_view(cols@[j as int]@) =~= c_pre[j as int].push(
                                trim(f[j as int]),
                            ));
                            assert(cols_view(cols@) =~= c_pre.update(
                                j as int,
                                c_pre[j as int].push(trim(f[j as int])),
                            ));
                        }
                        j = j + 1;
                    } else {
                        proof {
                            assert(add_row(f, cols_view(cols@), j as int) == Err::<
                                Seq<Seq<Seq<u8>>>,
                                ErrModel,
                            >(ErrModel::BadNumber(trim(f[j as int]))));
                            assert(add_row(f, c_start, 0) == Err::<Seq<Seq<Seq<u8>>>, ErrModel>(
                                ErrModel::BadNumber(trim(f[j as int])),
                            ));
                            assert(dec_rows(
                                ls,
                                i as int,
                                attrs_view(attrs@),
                                nnames,
                                c_start,
                            ) == Err::<FileModel, ErrModel>(ErrModel::BadNumber(trim(f[j as int]))));
                        }
                        return Err(ReadError::ParseFloatError(tj));
                    }
                }
                proof {
                    assert(add_row(f, cols_view(cols@), m as int) == Ok::<
                        Seq<Seq<Seq<u8>>>,
                        ErrModel,
                    >(cols_view(cols@)));
                    assert(dec_rows(ls, i as int, attrs_view(attrs@), nnames, c_start) == dec_rows(
                        ls,
                        i + 1,
                        attrs_view(attrs@),
                        nnames,
                        cols_view(cols@),
                    ));
                }
                i = i + 1;
            }
        }
        // zip the names with their columns, in key order
        let ghost c_all = cols_view(cols@);
        let ghost a_all = attrs_view(attrs@);
        let total = names.len();
        let mut signals: Vec<Signal> = Vec::new();
        let mut k: usize = 0;
        proof {
            assert(nnames.skip(0) =~= nnames);
            assert(c_all.skip(0) =~= c_all);
            assert(sigs_view(signals@) =~= Seq::<(Seq<u8>, Seq<Seq<u8>>)>::empty());
        }
        while k < total
            invariant
                0 <= k <= total == nnames.len(),
                c_all.len() == nnames.len(),
                names@.len() == total - k,
                cols@.len() == total - k,
                seqs_view(names@) == nnames.skip(k as int),
                cols_view(cols@) == c_all.skip(k as int),
                zip_sigs(nnames, c_all, 0, Seq::empty()) == zip_sigs(
                    nnames,
                    c_all,
                    k as int,
                    sigs_view(signals@),
                ),
            decreases total - k,
        {
            let ghost names_pre = names@;
            let ghost cols_pre = cols@;
            let name = names.remove(0);
            let col = cols.remove(0);
            proof {
                assert(name@ == nnames.skip(k as int)[0]);
                assert(seqs_view(col@) == c_all.skip(k as int)[0]);
                assert(name@ == nnames[k as int]);
                assert(seqs_view(col@) == c_all[k as int]);
            }
            insert_sig(&mut signals, name, col);
            proof {
                assert(names@ =~= names_pre.drop_first());
                assert(cols@ =~= cols_pre.drop_first());
                assert forall|t: int| 0 <= t < names@.len() implies seqs_view(names@)[t]
                    == nnames.skip(k + 1)[t] by {
                    assert(seqs_view(names_pre)[t + 1] == nnames.skip(k as int)[t + 1]);
                }
                assert(seqs_view(names@) =~= nnames.skip(k + 1));
                assert forall|t: int| 0 <= t < cols@.len() implies cols_view(cols@)[t]
                    == c_all.skip(k + 1)[t] by {
                    assert(cols_view(cols_pre)[t + 1] == c_all.skip(k as int)[t + 1]);
                }
                assert(cols_view(cols@) =~= c_all.skip(k + 1));
            }
            k = k + 1;
        }
        let df = DatFile { attributes: attrs, signals };
        proof {
            assert(df@.attrs == a_all);
            assert(df@.sigs == zip_sigs(nnames, c_all, total as int, sigs_view(df.signals@)));
        }
        Ok(df)
    }

    /// Encodes the file: one `key<TAB>value` line per attribute in key
    /// order, a blank line, the `[DATA]` marker, the column-name line with
    /// one tab after every name, then the data rows, each value followed by
    /// a tab. The number of rows written is the length of the first column
    /// in key order, so every other column must be at least that long.
    pub fn encode(&self) -> (out: Vec<u8>)
        requires
            forall|q: int|
                0 <= q < self.signals@.len() ==> (#[trigger] self.signals@[q].values)@.len()
                    >= row_count(self@.sigs),
        ensures
            out@ == spec_encode(self@),
    {
        let ghost m = self@;
        let ghost lines = enc_lines(m);
        let mut out: Vec<u8> = Vec::new();
        let na = self.attributes.len();
        proof {
            assert(m.attrs.len() == na);
            assert(out@ =~= join_nl(lines.take(0)));
        }
        let mut a: usize = 0;
        while a < na
            invariant
                0 <= a <= na == self.attributes@.len(),
                m == self@,
                lines == enc_lines(m),
                out@ == join_nl(lines.take(a as int)),
            decreases na - a,
        {
            push_bytes(&mut out, &self.attributes[a].key);
            out.push(TAB);
            push_bytes(&mut out, &self.attributes[a].value);
            out.push(NL);
            proof {
                lemma_join_nl_snoc(lines.take(a as int), lines[a as int]);
                assert(lines[a as int] == attr_lines(m.attrs)[a as int]);
                assert(m.attrs[a as int] == (
                    self.attributes@[a as int].key@,
                    self.attributes@[a as int].value@,
                ));
                assert(lines.take(a + 1) =~= lines.take(a as int).push(lines[a as int]));
                assert(out@ =~= join_nl(lines.take(a as int)) + lines[a as int] + seq![NL]);
            }
            a = a + 1;
        }
        // the blank separator line
        out.push(NL);
        proof {
            lemma_join_nl_snoc(lines.take(na as int), lines[na as int]);
            assert(lines[na as int] =~= Seq::<u8>::empty());
            assert(lines.take(na as int + 1) =~= lines.take(na as int).push(lines[na as int]));
            assert(out@ =~= join_nl(lines.take(na as int)) + lines[na as int] + seq![NL]);
        }
        // the marker line
        out.push(91);
        out.push(68);
        out.push(65);
        out.push(84);
        out.push(65);
        out.push(93);
        out.push(NL);
        proof {
            lemma_join_nl_snoc(lines.take(na as int + 1), lines[na as int + 1]);
            assert(lines[na as int + 1] == marker());
            assert(lines.take(na as int + 2) =~= lines.take(na as int + 1).push(
                lines[na as int + 1],
            ));
            assert(out@ =~= join_nl(lines.take(na as int + 1)) + marker() + seq![NL]);
        }
        // the column-name line
        let ns = self.signals.len();
        let ghost names_seq = Seq::new(m.sigs.len(), |q: int| m.sigs[q].0);
        let ghost base_names = out@;
        let mut j: usize = 0;
        proof {
            assert(out@ =~= base_names + join_tab(names_seq.take(0)));
        }
        while j < ns
            invariant
                0 <= j <= ns == self.signals@.len(),
                m == self@,
                names_seq == Seq::new(m.sigs.len(), |q: int| m.sigs[q].0),
                names_seq.len() == ns,
                out@ == base_names + join_tab(names_seq.take(j as int)),
            decreases ns - j,
        {
            push_bytes(&mut out, &self.signals[j].name);
            out.push(TAB);
            proof {
                lemma_join_tab_snoc(names_seq.take(j as int), names_seq[j as int]);
                assert(names_seq[j as int] == self.signals@[j as int].name@);
                assert(names_seq.take(j + 1) =~= names_seq.take(j as int).push(
                    names_seq[j as int],
                ));
                assert(out@ =~= (base_names + join_tab(names_seq.take(j as int)))
                    + names_seq[j as int] + seq![TAB]);
                assert((base_names + join_tab(names_seq.take(j as int))) + names_seq[j as int]
                    + seq![TAB] =~= base_names + (join_tab(names_seq.take(j as int))
                    + names_seq[j as int] + seq![TAB]));
            }
            j = j + 1;
        }
        out.push(NL);
        proof {
            assert(names_seq.take(ns as int) =~= names_seq);
            assert(names_line(m.sigs) == join_tab(names_seq));
            lemma_join_nl_snoc(lines.take(na as int + 2), lines[na as int + 2]);
            assert(lines[na as int + 2] == names_line(m.sigs));
            assert(lines.take(na as int + 3) =~= lines.take(na as int + 2).push(
                lines[na as int + 2],
            ));
            assert(out@ =~= join_nl(lines.take(na as int + 2)) + names_line(m.sigs) + seq![NL]);
        }
        // the data rows, as many as the first column in key order holds
        let rows: usize = if ns == 0 {
            0
        } else {
            self.signals[0].values.len()
        };
        proof {
            if ns > 0 {
                assert(m.sigs[0].1 == seqs_view(self.signals@[0].values@));
            }
            assert(rows == row_count(m.sigs));
        }
        let mut r: usize = 0;
        while r < rows
            invariant
                0 <= r <= rows,
                rows == row_count(m.sigs),
                ns == self.signals@.len(),
                m == self@,
                lines == enc_lines(m),
                na == self.attributes@.len(),
                forall|q: int|
                    0 <= q < self.signals@.len() ==> (#[trigger] self.signals@[q].values)@.len()
                        >= rows,
                out@ == join_nl(lines.take(na as int + 3 + r)),
            decreases rows - r,
        {
            let ghost row_items = Seq::new(m.sigs.len(), |q: int| m.sigs[q].1[r as int]);
            let ghost base_row = out@;
            let mut q: usize = 0;
            proof {
                assert(out@ =~= base_row + join_tab(row_items.take(0)));
            }
            while q < ns
                invariant
                    0 <= q <= ns == self.signals@.len(),
                    m == self@,
                    r < rows,
                    forall|x: int|
                        0 <= x < self.signals@.len() ==> (
                        #[trigger] self.signals@[x].values)@.len() >= rows,
                    row_items == Seq::new(m.sigs.len(), |x: int| m.sigs[x].1[r as int]),
                    row_items.len() == ns,
                    out@ == base_row + join_tab(row_items.take(q as int)),
                decreases ns - q,
            {
                push_bytes(&mut out, &self.signals[q].values[r]);
                out.push(TAB);
                proof {
                    lemma_join_tab_snoc(row_items.take(q as int), row_items[q as int]);
                    assert(m.sigs[q as int].1 == seqs_view(self.signals@[q as int].values@));
                    assert(row_items[q as int] == self.signals@[q as int].values@[r as int]@);
                    assert(row_items.take(q + 1) =~= row_items.take(q as int).push(
                        row_items[q as int],
                    ));
                    assert(out@ =~= (base_row + join_tab(row_items.take(q as int)))
                        + row_items[q as int] + seq![TAB]);
                    assert((base_row + join_tab(row_items.take(q as int))) + row_items[q as int]
                        + seq![TAB] =~= base_row + (join_tab(row_items.take(q as int))
                        + row_items[q as int] + seq![TAB]));
                }
                q = q + 1;
            }
            out.push(NL);
            proof {
                assert(row_items.take(ns as int) =~= row_items);
                assert(row_line(m.sigs, r as int) == join_tab(row_items));
                lemma_join_nl_snoc(lines.take(na as int + 3 + r), lines[na as int + 3 + r]);
                assert(lines[na as int + 3 + r] == row_line(m.sigs, r as int));
                assert(lines.take(na as int + 3 + r + 1) =~= lines.take(na as int + 3 + r).push(
                    lines[na as int + 3 + r],
                ));
                assert(out@ =~= join_nl(lines.take(na as int + 3 + r)) + row_line(m.sigs, r as int)
                    + seq![NL]);
            }
            r = r + 1;
        }
        proof {
            assert(lines.len() == na as int + 3 + row_count(m.sigs));
            assert(lines.take(na as int + 3 + rows as int) =~= lines);
        }
        out
    }
}

} // verus!
