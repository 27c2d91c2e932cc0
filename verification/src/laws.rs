//! The laws of the codec, proved about the model: encoding a well-formed
//! file and decoding the result gives the file back, decoding ignores blank
//! lines wherever they are inserted, and encoding is a function of the
//! file's content alone.

use vstd::prelude::*;

use crate::model::attr_lines;
use crate::model::clean_key;
use crate::model::clean_value;
use crate::model::dec_attrs;
use crate::model::dec_names;
use crate::model::dec_rows;
use crate::model::enc_lines;
use crate::model::insert_pair;
use crate::model::join_nl;
use crate::model::join_tab;
use crate::model::lemma_insert_pair_skip;
use crate::model::marker;
use crate::model::names_line;
use crate::model::names_of;
use crate::model::row_count;
use crate::model::row_line;
use crate::model::sorted_keys;
use crate::model::spec_decode;
use crate::model::spec_encode;
use crate::model::wf_attrs;
use crate::model::wf_file;
use crate::model::wf_sigs;
use crate::model::zip_sigs;
use crate::model::ErrModel;
use crate::model::FileModel;
use crate::number::is_float_text;
use crate::number::lemma_float_text_clean;
use crate::text::find_byte;
use crate::text::is_blank;
use crate::text::is_ws;
use crate::text::lemma_find_byte_at;
use crate::text::lemma_split_lines_prepend;
use crate::text::lemma_split_tabs_prepend;
use crate::text::lemma_trim_back_nonempty;
use crate::text::lemma_trim_clean;
use crate::text::lex_lt;
use crate::text::split_lines;
use crate::text::split_tabs;
use crate::text::trim;
use crate::text::trim_back;
use crate::text::trim_front;
use crate::text::CR;
use crate::text::NL;
use crate::text::TAB;

verus! {

/// The marker's bytes are printable: not whitespace, not tab, not newline.
proof fn lemma_marker_clean()
    ensures
        marker().len() == 6,
        !is_ws(marker()[0]),
        !is_ws(marker()[5]),
        forall|k: int| 0 <= k < 6 ==> marker()[k] != TAB && marker()[k] != NL,
        trim(marker()) == marker(),
{
    assert forall|k: int| 0 <= k < 6 implies marker()[k] != TAB && marker()[k] != NL by {
        assert(marker()[0] == 91 && marker()[1] == 68 && marker()[2] == 65 && marker()[3] == 84
            && marker()[4] == 65 && marker()[5] == 93);
    }
    lemma_trim_clean(marker());
}

/// Lines without newlines or trailing carriage returns come back unchanged
/// from splitting their newline-joined stream.
proof fn lemma_split_join_nl(ls: Seq<Seq<u8>>)
    requires
        forall|i: int, k: int|
            0 <= i < ls.len() && 0 <= k < ls[i].len() ==> #[trigger] ls[i][k] != NL,
        forall|i: int|
            0 <= i < ls.len() ==> ls[i].len() == 0 || #[trigger] ls[i][ls[i].len() - 1] != CR,
    ensures
        split_lines(join_nl(ls)) == ls,
    decreases ls.len(),
{
    if ls.len() == 0 {
        assert(split_lines(join_nl(ls)) =~= ls);
    } else {
        lemma_split_lines_prepend(ls[0], join_nl(ls.drop_first()));
        lemma_split_join_nl(ls.drop_first());
        assert(crate::text::strip_cr(ls[0]) == ls[0]);
        assert(seq![ls[0]] + ls.drop_first() =~= ls);
    }
}

/// A joined line holds no byte that no item holds, other than the tab.
proof fn lemma_join_tab_free(items: Seq<Seq<u8>>, b: u8)
    requires
        b != TAB,
        forall|i: int, k: int|
            0 <= i < items.len() && 0 <= k < items[i].len() ==> #[trigger] items[i][k] != b,
    ensures
        forall|k: int| 0 <= k < join_tab(items).len() ==> #[trigger] join_tab(items)[k] != b,
    decreases items.len(),
{
    if items.len() > 0 {
        lemma_join_tab_free(items.drop_first(), b);
        let s = join_tab(items);
        let h = items[0];
        let rest = join_tab(items.drop_first());
        assert forall|k: int| 0 <= k < s.len() implies #[trigger] s[k] != b by {
            if k < h.len() {
                assert(s[k] == h[k]);
            } else if k == h.len() {
                assert(s[k] == TAB);
            } else {
                assert(s[k] == rest[k - h.len() - 1]);
            }
        }
    }
}

/// A joined line of at least one item ends with the tab that follows its
/// last item.
proof fn lemma_join_tab_last(items: Seq<Seq<u8>>)
    requires
        items.len() > 0,
    ensures
        join_tab(items).len() > 0,
        join_tab(items)[join_tab(items).len() - 1] == TAB,
    decreases items.len(),
{
    let s = join_tab(items);
    let h = items[0];
    if items.len() == 1 {
        assert(join_tab(items.drop_first()) =~= Seq::<u8>::empty());
        assert(s[s.len() - 1] == TAB);
    } else {
        lemma_join_tab_last(items.drop_first());
        let rest = join_tab(items.drop_first());
        assert(s[s.len() - 1] == rest[rest.len() - 1]);
    }
}

/// Splitting a joined line of tab-free items gives the items back, with one
/// empty field after the final tab.
proof fn lemma_split_tabs_join(items: Seq<Seq<u8>>)
    requires
        forall|i: int, k: int|
            0 <= i < items.len() && 0 <= k < items[i].len() ==> #[trigger] items[i][k] != TAB,
    ensures
        split_tabs(join_tab(items)) == items + seq![Seq::<u8>::empty()],
    decreases items.len(),
{
    if items.len() == 0 {
        lemma_find_byte_at(Seq::<u8>::empty(), TAB, 0);
        assert(split_tabs(join_tab(items)) =~= items + seq![Seq::<u8>::empty()]);
    } else {
        lemma_split_tabs_prepend(items[0], join_tab(items.drop_first()));
        lemma_split_tabs_join(items.drop_first());
        assert(seq![items[0]] + (items.drop_first() + seq![Seq::<u8>::empty()]) =~= items + seq![
            Seq::<u8>::empty(),
        ]);
    }
}

/// What the decoder makes of one attribute line `key<TAB>value`.
proof fn lemma_attr_line_facts(k: Seq<u8>, v: Seq<u8>)
    requires
        clean_key(k),
        clean_value(v),
        !(k == marker() && v.len() == 0),
    ensures
        !is_blank(k + seq![TAB] + v),
        trim(k + seq![TAB] + v) != marker(),
        find_byte(k + seq![TAB] + v, TAB) == k.len(),
        trim((k + seq![TAB] + v).take(k.len() as int)) == k,
        trim((k + seq![TAB] + v).skip(k.len() as int + 1)) == v,
{
    let line = k + seq![TAB] + v;
    lemma_marker_clean();
    lemma_find_byte_at(line, TAB, k.len() as int);
    assert(line.take(k.len() as int) =~= k);
    assert(line.skip(k.len() as int + 1) =~= v);
    lemma_trim_clean(k);
    lemma_trim_clean(v);
    assert(line[0] == k[0]);
    assert(!is_ws(line[0]));
    assert(trim_front(line) == line);
    if v.len() > 0 {
        assert(line[line.len() - 1] == v[v.len() - 1]);
        assert(trim_back(line) == line);
        assert(trim(line) == line);
        // the line holds a tab, which the marker does not
        assert(line[k.len() as int] == TAB);
        assert(trim(line) != marker());
    } else {
        // line is key followed by one tab; trimming strips the tab
        assert(line[line.len() - 1] == TAB);
        assert(line.drop_last() =~= k);
        assert(trim_back(line) == trim_back(k));
        assert(trim_back(k) == k);
        assert(trim(line) == k);
        assert(trim(line) != marker());
    }
    assert(trim(line).len() > 0);
}

/// Reading clean names back out of the fields of their joined line.
proof fn lemma_names_of_append_empty(names: Seq<Seq<u8>>)
    requires
        forall|j: int| 0 <= j < names.len() ==> clean_key(#[trigger] names[j]),
    ensures
        names_of(names + seq![Seq::<u8>::empty()]) == names,
    decreases names.len(),
{
    let f = names + seq![Seq::<u8>::empty()];
    if names.len() == 0 {
        assert(f[0] =~= Seq::<u8>::empty());
        assert(trim(f[0]).len() == 0);
        assert(f.drop_first() =~= Seq::<Seq<u8>>::empty());
        assert(names_of(Seq::<Seq<u8>>::empty()) == Seq::<Seq<u8>>::empty());
        assert(names_of(f) == names_of(f.drop_first()));
        assert(names_of(f) =~= names);
    } else {
        assert(f[0] == names[0]);
        lemma_trim_clean(names[0]);
        lemma_names_of_append_empty(names.drop_first());
        assert(f.drop_first() =~= names.drop_first() + seq![Seq::<u8>::empty()]);
        assert(seq![names[0]] + names.drop_first() =~= names);
    }
}

/// The decoder reads a run of attribute lines, written in ascending key
/// order above every key already read, by appending each pair in turn.
proof fn lemma_dec_attr_lines(
    ls: Seq<Seq<u8>>,
    i: int,
    attrs: Seq<(Seq<u8>, Seq<u8>)>,
    acc: Seq<(Seq<u8>, Seq<u8>)>,
)
    requires
        0 <= i,
        i + attrs.len() <= ls.len(),
        wf_attrs(attrs),
        forall|x: int, t: int|
            0 <= x < acc.len() && 0 <= t < attrs.len() ==> lex_lt(
                #[trigger] acc[x].0,
                #[trigger] attrs[t].0,
            ),
        forall|t: int|
            0 <= t < attrs.len() ==> ls[i + t] == #[trigger] attrs[t].0 + seq![TAB] + attrs[t].1,
    ensures
        dec_attrs(ls, i, acc) == dec_attrs(ls, i + attrs.len(), acc + attrs),
    decreases attrs.len(),
{
    if attrs.len() == 0 {
        assert(acc + attrs =~= acc);
    } else {
        let k = attrs[0].0;
        let v = attrs[0].1;
        assert(ls[i + 0] == attrs[0].0 + seq![TAB] + attrs[0].1);
        lemma_attr_line_facts(k, v);
        let line = ls[i];
        assert(line == k + seq![TAB] + v);
        assert(find_byte(line, TAB) == k.len());
        assert(k.len() < line.len());
        // appending: every key already read is below this one
        lemma_insert_pair_skip(acc, k, v, acc.len() as int);
        assert(acc.take(acc.len() as int) =~= acc);
        assert(acc.skip(acc.len() as int) =~= Seq::<(Seq<u8>, Seq<u8>)>::empty());
        assert(insert_pair(Seq::<(Seq<u8>, Seq<u8>)>::empty(), k, v) == seq![(k, v)]);
        assert((k, v) == attrs[0]);
        assert(insert_pair(acc, k, v) =~= acc + seq![attrs[0]]);
        assert(dec_attrs(ls, i, acc) == dec_attrs(ls, i + 1, acc + seq![attrs[0]]));
        // the rest of the run
        let attrs2 = attrs.drop_first();
        let acc2 = acc + seq![attrs[0]];
        assert(wf_attrs(attrs2)) by {
            assert(forall|x: int, y: int|
                0 <= x < y < attrs2.len() ==> lex_lt(
                    #[trigger] attrs2[x].0,
                    #[trigger] attrs2[y].0,
                ));
            assert(forall|t: int|
                0 <= t < attrs2.len() ==> clean_key(#[trigger] attrs2[t].0) && clean_value(
                    attrs2[t].1,
                ) && !(attrs2[t].0 == marker() && attrs2[t].1.len() == 0));
        }
        assert forall|x: int, t: int|
            0 <= x < acc2.len() && 0 <= t < attrs2.len() implies lex_lt(
            #[trigger] acc2[x].0,
            #[trigger] attrs2[t].0,
        ) by {
            assert(attrs2[t] == attrs[t + 1]);
            if x < acc.len() {
                assert(acc2[x] == acc[x]);
            } else {
                assert(acc2[x] == attrs[0]);
                assert(lex_lt(attrs[0].0, attrs[t + 1].0));
            }
        }
        assert forall|t: int|
            0 <= t < attrs2.len() implies ls[i + 1 + t] == #[trigger] attrs2[t].0 + seq![TAB]
            + attrs2[t].1 by {
            assert(attrs2[t] == attrs[t + 1]);
            assert(ls[i + (t + 1)] == attrs[t + 1].0 + seq![TAB] + attrs[t + 1].1);
        }
        lemma_dec_attr_lines(ls, i + 1, attrs2, acc2);
        assert(acc2 + attrs2 =~= acc + attrs);
    }
}

/// One data row of a well-formed file parses and extends every column by
/// its value for that row.
proof fn lemma_add_row_full(
    f: Seq<Seq<u8>>,
    sigs: Seq<(Seq<u8>, Seq<Seq<u8>>)>,
    r: int,
    j: int,
    cols: Seq<Seq<Seq<u8>>>,
)
    requires
        wf_sigs(sigs),
        0 <= r < row_count(sigs),
        0 <= j <= sigs.len(),
        f == Seq::new(sigs.len(), |x: int| sigs[x].1[r]) + seq![Seq::<u8>::empty()],
        cols == Seq::new(
            sigs.len(),
            |x: int|
                if x < j {
                    sigs[x].1.take(r + 1)
                } else {
                    sigs[x].1.take(r)
                },
        ),
    ensures
        crate::model::add_row(f, cols, j) == Ok::<Seq<Seq<Seq<u8>>>, ErrModel>(
            Seq::new(sigs.len(), |x: int| sigs[x].1.take(r + 1)),
        ),
    decreases sigs.len() - j,
{
    if j == sigs.len() {
        assert(cols =~= Seq::new(sigs.len(), |x: int| sigs[x].1.take(r + 1)));
    } else {
        let t = sigs[j].1[r];
        assert(f[j] == t);
        assert(is_float_text(t));
        lemma_float_text_clean(t);
        lemma_trim_clean(t);
        let cols2 = cols.update(j, cols[j].push(trim(f[j])));
        assert(cols[j] == sigs[j].1.take(r));
        assert(cols[j].push(t) =~= sigs[j].1.take(r + 1));
        let colsn = Seq::new(
            sigs.len(),
            |x: int|
                if x < j + 1 {
                    sigs[x].1.take(r + 1)
                } else {
                    sigs[x].1.take(r)
                },
        );
        assert(cols2 =~= colsn);
        lemma_add_row_full(f, sigs, r, j + 1, colsn);
    }
}

/// The decoder reads a run of data rows by filling each column row by row.
proof fn lemma_dec_row_lines(
    ls: Seq<Seq<u8>>,
    i: int,
    acc: Seq<(Seq<u8>, Seq<u8>)>,
    sigs: Seq<(Seq<u8>, Seq<Seq<u8>>)>,
    r: int,
    names: Seq<Seq<u8>>,
    cols: Seq<Seq<Seq<u8>>>,
)
    requires
        wf_sigs(sigs),
        names == Seq::new(sigs.len(), |j: int| sigs[j].0),
        cols == Seq::new(sigs.len(), |j: int| sigs[j].1.take(r)),
        0 <= r <= row_count(sigs),
        0 <= i,
        i + (row_count(sigs) - r) <= ls.len(),
        forall|t: int|
            0 <= t < row_count(sigs) - r ==> ls[i + t] == #[trigger] row_line(sigs, r + t),
    ensures
        dec_rows(ls, i, acc, names, cols) == dec_rows(
            ls,
            i + (row_count(sigs) - r),
            acc,
            names,
            Seq::new(sigs.len(), |j: int| sigs[j].1),
        ),
    decreases row_count(sigs) - r,
{
    let rc = row_count(sigs) as int;
    if r == rc {
        assert forall|j: int| 0 <= j < sigs.len() implies cols[j] == Seq::new(
            sigs.len(),
            |x: int| sigs[x].1,
        )[j] by {
            assert(sigs[j].1.len() == rc);
            assert(sigs[j].1.take(rc) =~= sigs[j].1);
        }
        assert(cols =~= Seq::new(sigs.len(), |j: int| sigs[j].1));
    } else {
        let items = Seq::new(sigs.len(), |j: int| sigs[j].1[r]);
        let line = ls[i];
        assert(ls[i + 0] == row_line(sigs, r + 0));
        assert(line == join_tab(items));
        // every item is numeric text: non-empty and free of whitespace
        assert forall|x: int, y: int|
            0 <= x < items.len() && 0 <= y < items[x].len() implies #[trigger] items[x][y] != TAB
            && items[x][y] != NL && !is_ws(items[x][y]) && items[x].len() > 0 by {
            assert(sigs[x].1.len() == rc);
            assert(is_float_text(sigs[x].1[r]));
            lemma_float_text_clean(sigs[x].1[r]);
        }
        assert forall|x: int| 0 <= x < items.len() implies (#[trigger] items[x]).len() > 0 by {
            assert(sigs[x].1.len() == rc);
            assert(is_float_text(sigs[x].1[r]));
            lemma_float_text_clean(sigs[x].1[r]);
        }
        // the line is not blank: it starts with a non-whitespace byte
        assert(items.len() > 0);
        assert(line[0] == items[0][0]);
        assert(!is_ws(line[0]));
        assert(trim_front(line) == line);
        lemma_trim_back_nonempty(line);
        assert(!is_blank(line));
        // its fields are the values plus one empty trailing field
        lemma_split_tabs_join(items);
        assert(split_tabs(line) == items + seq![Seq::<u8>::empty()]);
        lemma_add_row_full(
            items + seq![Seq::<u8>::empty()],
            sigs,
            r,
            0,
            Seq::new(
                sigs.len(),
                |x: int|
                    if x < 0 {
                        sigs[x].1.take(r + 1)
                    } else {
                        sigs[x].1.take(r)
                    },
            ),
        );
        assert(cols =~= Seq::new(
            sigs.len(),
            |x: int|
                if x < 0 {
                    sigs[x].1.take(r + 1)
                } else {
                    sigs[x].1.take(r)
                },
        ));
        let cols2 = Seq::new(sigs.len(), |x: int| sigs[x].1.take(r + 1));
        assert(dec_rows(ls, i, acc, names, cols) == dec_rows(ls, i + 1, acc, names, cols2));
        assert forall|t: int|
            0 <= t < row_count(sigs) - (r + 1) implies ls[i + 1 + t] == #[trigger] row_line(
            sigs,
            r + 1 + t,
        ) by {
            assert(ls[i + (t + 1)] == row_line(sigs, r + (t + 1)));
        }
        lemma_dec_row_lines(ls, i + 1, acc, sigs, r + 1, names, cols2);
    }
}

/// Zipping the names with the finished columns, in the ascending order in
/// which both were written, rebuilds the signal sequence.
proof fn lemma_zip_sorted(sigs: Seq<(Seq<u8>, Seq<Seq<u8>>)>, j: int)
    requires
        sorted_keys(sigs),
        0 <= j <= sigs.len(),
    ensures
        zip_sigs(
            Seq::new(sigs.len(), |x: int| sigs[x].0),
            Seq::new(sigs.len(), |x: int| sigs[x].1),
            j,
            sigs.take(j),
        ) == sigs,
    decreases sigs.len() - j,
{
    let names = Seq::new(sigs.len(), |x: int| sigs[x].0);
    let cols = Seq::new(sigs.len(), |x: int| sigs[x].1);
    if j == sigs.len() {
        assert(sigs.take(j) =~= sigs);
    } else {
        let acc = sigs.take(j);
        lemma_insert_pair_skip(acc, names[j], cols[j], j);
        assert(acc.take(j) =~= acc);
        assert(acc.skip(j) =~= Seq::<(Seq<u8>, Seq<Seq<u8>>)>::empty());
        assert(insert_pair(Seq::<(Seq<u8>, Seq<Seq<u8>>)>::empty(), names[j], cols[j]) == seq![
            (names[j], cols[j]),
        ]);
        assert((names[j], cols[j]) == sigs[j]);
        assert(insert_pair(acc, names[j], cols[j]) =~= sigs.take(j + 1));
        lemma_zip_sorted(sigs, j + 1);
    }
}

/// The round-trip law: decoding what the encoder wrote for a well-formed
/// file — non-empty signal set, equal-length columns of numeric-text
/// values, clean keys and values in ascending order — yields exactly that
/// file.
pub proof fn lemma_round_trip(m: FileModel)
    requires
        wf_file(m),
    ensures
        spec_decode(spec_encode(m)) == Ok::<FileModel, ErrModel>(m),
{
    let ls = enc_lines(m);
    let na = m.attrs.len() as int;
    let k = m.sigs.len() as int;
    let rc = row_count(m.sigs) as int;
    let names = Seq::new(m.sigs.len(), |j: int| m.sigs[j].0);
    let name_items = names;
    let al = attr_lines(m.attrs);
    lemma_marker_clean();
    assert(al.len() == na);
    assert(ls.len() == na + 3 + rc);
    // the shape of each line
    assert forall|t: int| 0 <= t < na implies ls[t] == #[trigger] m.attrs[t].0 + seq![TAB]
        + m.attrs[t].1 by {
        assert(ls[t] == al[t]);
    }
    assert(ls[na] =~= Seq::<u8>::empty());
    assert(ls[na + 1] == marker());
    assert(ls[na + 2] == names_line(m.sigs));
    assert forall|t: int| 0 <= t < rc implies ls[na + 3 + t] == #[trigger] row_line(m.sigs, t) by {
        assert(ls[na + 3 + t] == Seq::new(row_count(m.sigs), |x: int| row_line(m.sigs, x))[t]);
    }
    // every line is free of newlines and of trailing carriage returns
    assert forall|i: int, y: int|
        0 <= i < ls.len() && 0 <= y < ls[i].len() implies #[trigger] ls[i][y] != NL by {
        if i < na {
            let kk = m.attrs[i].0;
            let vv = m.attrs[i].1;
            assert(ls[i] == kk + seq![TAB] + vv);
            assert(clean_key(kk) && clean_value(vv));
            if y < kk.len() {
                assert(ls[i][y] == kk[y]);
            } else if y == kk.len() {
                assert(ls[i][y] == TAB);
            } else {
                assert(ls[i][y] == vv[y - kk.len() - 1]);
                assert(vv.len() > 0);
            }
        } else if i == na + 1 {
            assert(marker()[y] != NL);
        } else if i == na + 2 {
            assert forall|x: int, z: int|
                0 <= x < name_items.len() && 0 <= z < name_items[x].len() implies #[trigger] name_items[x][z]
                != NL by {
                assert(clean_key(m.sigs[x].0));
            }
            lemma_join_tab_free(name_items, NL);
        } else if i > na + 2 {
            let r = i - na - 3;
            let items = Seq::new(m.sigs.len(), |x: int| m.sigs[x].1[r]);
            assert(ls[i] == join_tab(items));
            assert forall|x: int, z: int|
                0 <= x < items.len() && 0 <= z < items[x].len() implies #[trigger] items[x][z]
                != NL by {
                assert(m.sigs[x].1.len() == rc);
                assert(is_float_text(m.sigs[x].1[r]));
                lemma_float_text_clean(m.sigs[x].1[r]);
            }
            lemma_join_tab_free(items, NL);
        }
    }
    assert forall|i: int| 0 <= i < ls.len() implies ls[i].len() == 0 || #[trigger] ls[i][ls[i].len()
        - 1] != CR by {
        if i < na {
            let kk = m.attrs[i].0;
            let vv = m.attrs[i].1;
            assert(ls[i] == kk + seq![TAB] + vv);
            if vv.len() == 0 {
                assert(ls[i][ls[i].len() - 1] == TAB);
            } else {
                assert(ls[i][ls[i].len() - 1] == vv[vv.len() - 1]);
                assert(!is_ws(vv[vv.len() - 1]));
            }
        } else if i == na + 1 {
            assert(marker()[5] == 93);
        } else if i == na + 2 {
            assert(name_items.len() > 0);
            lemma_join_tab_last(name_items);
        } else if i > na + 2 {
            let r = i - na - 3;
            let items = Seq::new(m.sigs.len(), |x: int| m.sigs[x].1[r]);
            assert(ls[i] == join_tab(items));
            assert(items.len() > 0);
            lemma_join_tab_last(items);
        }
    }
    lemma_split_join_nl(ls);
    assert(split_lines(spec_encode(m)) == ls);
    // the header
    lemma_dec_attr_lines(ls, 0, m.attrs, Seq::empty());
    assert(Seq::empty() + m.attrs =~= m.attrs);
    assert(spec_decode(spec_encode(m)) == dec_attrs(ls, na, m.attrs));
    // the blank line and the marker
    assert(is_blank(ls[na]));
    assert(dec_attrs(ls, na, m.attrs) == dec_attrs(ls, na + 1, m.attrs));
    assert(trim(ls[na + 1]) == marker());
    assert(!is_blank(ls[na + 1]));
    assert(dec_attrs(ls, na + 1, m.attrs) == dec_names(ls, na + 2, m.attrs));
    // the column-name line
    let nline = ls[na + 2];
    assert(nline == join_tab(name_items));
    assert(name_items.len() > 0);
    assert(clean_key(m.sigs[0].0));
    assert(nline[0] == name_items[0][0]);
    assert(!is_ws(nline[0]));
    assert(trim_front(nline) == nline);
    lemma_trim_back_nonempty(nline);
    assert(!is_blank(nline));
    assert forall|x: int, z: int|
        0 <= x < name_items.len() && 0 <= z < name_items[x].len() implies #[trigger] name_items[x][z]
        != TAB by {
        assert(clean_key(m.sigs[x].0));
    }
    lemma_split_tabs_join(name_items);
    assert forall|x: int| 0 <= x < name_items.len() implies clean_key(#[trigger] name_items[x]) by {
        assert(clean_key(m.sigs[x].0));
    }
    lemma_names_of_append_empty(name_items);
    assert(names_of(split_tabs(nline)) == names);
    let cols0 = Seq::new(names.len(), |j: int| Seq::<Seq<u8>>::empty());
    assert(dec_names(ls, na + 2, m.attrs) == dec_rows(ls, na + 3, m.attrs, names, cols0));
    // the data rows
    assert(cols0 =~= Seq::new(m.sigs.len(), |j: int| m.sigs[j].1.take(0))) by {
        assert forall|j: int| 0 <= j < m.sigs.len() implies #[trigger] cols0[j] == Seq::new(
            m.sigs.len(),
            |x: int| m.sigs[x].1.take(0),
        )[j] by {
            assert(m.sigs[j].1.take(0) =~= Seq::<Seq<u8>>::empty());
        }
    }
    lemma_dec_row_lines(
        ls,
        na + 3,
        m.attrs,
        m.sigs,
        0,
        names,
        Seq::new(m.sigs.len(), |j: int| m.sigs[j].1.take(0)),
    );
    let colsf = Seq::new(m.sigs.len(), |j: int| m.sigs[j].1);
    assert(dec_rows(ls, na + 3, m.attrs, names, cols0) == dec_rows(
        ls,
        na + 3 + rc,
        m.attrs,
        names,
        colsf,
    ));
    // the end of the input closes the file
    assert(dec_rows(ls, na + 3 + rc, m.attrs, names, colsf) == Ok::<FileModel, ErrModel>(
        FileModel { attrs: m.attrs, sigs: zip_sigs(names, colsf, 0, Seq::empty()) },
    ));
    assert(m.sigs.take(0) =~= Seq::<(Seq<u8>, Seq<Seq<u8>>)>::empty());
    lemma_zip_sorted(m.sigs, 0);
    assert(zip_sigs(names, colsf, 0, Seq::empty()) == m.sigs);
}

/// A blank line inserted at or after the current position does not change
/// what the header phase yields (position still ahead).
proof fn lemma_blank_attrs_before(
    ls: Seq<Seq<u8>>,
    p: int,
    b: Seq<u8>,
    i: int,
    acc: Seq<(Seq<u8>, Seq<u8>)>,
)
    requires
        0 <= i <= p <= ls.len(),
        is_blank(b),
    ensures
        dec_attrs(ls.insert(p, b), i, acc) == dec_attrs(ls, i, acc),
    decreases ls.len() - i, 1int, 2int,
{
    let ls2 = ls.insert(p, b);
    if i == p {
        assert(ls2[p] == b);
        assert(dec_attrs(ls2, p, acc) == dec_attrs(ls2, p + 1, acc));
        lemma_blank_attrs_after(ls, p, b, p, acc);
    } else {
        assert(ls2[i] == ls[i]);
        if is_blank(ls[i]) {
            lemma_blank_attrs_before(ls, p, b, i + 1, acc);
        } else if trim(ls[i]) == marker() {
            lemma_blank_names_before(ls, p, b, i + 1, acc);
        } else if find_byte(ls[i], TAB) == ls[i].len() {
        } else {
            let q = find_byte(ls[i], TAB);
            lemma_blank_attrs_before(
                ls,
                p,
                b,
                i + 1,
                insert_pair(acc, trim(ls[i].take(q)), trim(ls[i].skip(q + 1))),
            );
        }
    }
}

/// As above, once the position has passed the inserted line: positions in
/// the longer sequence run one ahead.
proof fn lemma_blank_attrs_after(
    ls: Seq<Seq<u8>>,
    p: int,
    b: Seq<u8>,
    i: int,
    acc: Seq<(Seq<u8>, Seq<u8>)>,
)
    requires
        0 <= p <= i <= ls.len(),
        is_blank(b),
    ensures
        dec_attrs(ls.insert(p, b), i + 1, acc) == dec_attrs(ls, i, acc),
    decreases ls.len() - i, 0int, 2int,
{
    let ls2 = ls.insert(p, b);
    if i == ls.len() {
        assert(i + 1 >= ls2.len());
    } else {
        assert(ls2[i + 1] == ls[i]);
        if is_blank(ls[i]) {
            lemma_blank_attrs_after(ls, p, b, i + 1, acc);
        } else if trim(ls[i]) == marker() {
            lemma_blank_names_after(ls, p, b, i + 1, acc);
        } else if find_byte(ls[i], TAB) == ls[i].len() {
        } else {
            let q = find_byte(ls[i], TAB);
            lemma_blank_attrs_after(
                ls,
                p,
                b,
                i + 1,
                insert_pair(acc, trim(ls[i].take(q)), trim(ls[i].skip(q + 1))),
            );
        }
    }
}

/// The name phase, position still ahead of the inserted blank line.
proof fn lemma_blank_names_before(
    ls: Seq<Seq<u8>>,
    p: int,
    b: Seq<u8>,
    i: int,
    acc: Seq<(Seq<u8>, Seq<u8>)>,
)
    requires
        0 <= i <= p <= ls.len(),
        is_blank(b),
    ensures
        dec_names(ls.insert(p, b), i, acc) == dec_names(ls, i, acc),
    decreases ls.len() - i, 1int, 1int,
{
    let ls2 = ls.insert(p, b);
    if i == p {
        assert(ls2[p] == b);
        assert(dec_names(ls2, p, acc) == dec_names(ls2, p + 1, acc));
        lemma_blank_names_after(ls, p, b, p, acc);
    } else {
        assert(ls2[i] == ls[i]);
        if is_blank(ls[i]) {
            lemma_blank_names_before(ls, p, b, i + 1, acc);
        } else {
            let names = names_of(split_tabs(ls[i]));
            lemma_blank_rows_before(
                ls,
                p,
                b,
                i + 1,
                acc,
                names,
                Seq::new(names.len(), |j: int| Seq::<Seq<u8>>::empty()),
            );
        }
    }
}

/// The name phase, position past the inserted blank line.
proof fn lemma_blank_names_after(
    ls: Seq<Seq<u8>>,
    p: int,
    b: Seq<u8>,
    i: int,
    acc: Seq<(Seq<u8>, Seq<u8>)>,
)
    requires
        0 <= p <= i <= ls.len(),
        is_blank(b),
    ensures
        dec_names(ls.insert(p, b), i + 1, acc) == dec_names(ls, i, acc),
    decreases ls.len() - i, 0int, 1int,
{
    let ls2 = ls.insert(p, b);
    if i == ls.len() {
        assert(i + 1 >= ls2.len());
    } else {
        assert(ls2[i + 1] == ls[i]);
        if is_blank(ls[i]) {
            lemma_blank_names_after(ls, p, b, i + 1, acc);
        } else {
            let names = names_of(split_tabs(ls[i]));
            lemma_blank_rows_after(
                ls,
                p,
                b,
                i + 1,
                acc,
                names,
                Seq::new(names.len(), |j: int| Seq::<Seq<u8>>::empty()),
            );
        }
    }
}

/// The row phase, position still ahead of the inserted blank line.
proof fn lemma_blank_rows_before(
    ls: Seq<Seq<u8>>,
    p: int,
    b: Seq<u8>,
    i: int,
    acc: Seq<(Seq<u8>, Seq<u8>)>,
    names: Seq<Seq<u8>>,
    cols: Seq<Seq<Seq<u8>>>,
)
    requires
        0 <= i <= p <= ls.len(),
        is_blank(b),
    ensures
        dec_rows(ls.insert(p, b), i, acc, names, cols) == dec_rows(ls, i, acc, names, cols),
    decreases ls.len() - i, 1int, 0int,
{
    let ls2 = ls.insert(p, b);
    if i == p {
        assert(ls2[p] == b);
        assert(dec_rows(ls2, p, acc, names, cols) == dec_rows(ls2, p + 1, acc, names, cols));
        lemma_blank_rows_after(ls, p, b, p, acc, names, cols);
    } else {
        assert(ls2[i] == ls[i]);
        if is_blank(ls[i]) {
            lemma_blank_rows_before(ls, p, b, i + 1, acc, names, cols);
        } else {
            match crate::model::add_row(split_tabs(ls[i]), cols, 0) {
                Ok(c2) => {
                    lemma_blank_rows_before(ls, p, b, i + 1, acc, names, c2);
                },
                Err(_) => {},
            }
        }
    }
}

/// The row phase, position past the inserted blank line.
proof fn lemma_blank_rows_after(
    ls: Seq<Seq<u8>>,
    p: int,
    b: Seq<u8>,
    i: int,
    acc: Seq<(Seq<u8>, Seq<u8>)>,
    names: Seq<Seq<u8>>,
    cols: Seq<Seq<Seq<u8>>>,
)
    requires
        0 <= p <= i <= ls.len(),
        is_blank(b),
    ensures
        dec_rows(ls.insert(p, b), i + 1, acc, names, cols) == dec_rows(ls, i, acc, names, cols),
    decreases ls.len() - i, 0int, 0int,
{
    let ls2 = ls.insert(p, b);
    if i == ls.len() {
        assert(i + 1 >= ls2.len());
    } else {
        assert(ls2[i + 1] == ls[i]);
        if is_blank(ls[i]) {
            lemma_blank_rows_after(ls, p, b, i + 1, acc, names, cols);
        } else {
            match crate::model::add_row(split_tabs(ls[i]), cols, 0) {
                Ok(c2) => {
                    lemma_blank_rows_after(ls, p, b, i + 1, acc, names, c2);
                },
                Err(_) => {},
            }
        }
    }
}

/// The blank-line law: a blank line inserted anywhere into the line
/// sequence — in the header, around the marker, or between data rows —
/// leaves what decoding yields unchanged.
pub proof fn lemma_blank_line_ignored(ls: Seq<Seq<u8>>, p: int, b: Seq<u8>)
    requires
        0 <= p <= ls.len(),
        is_blank(b),
    ensures
        dec_attrs(ls.insert(p, b), 0, Seq::empty()) == dec_attrs(ls, 0, Seq::empty()),
{
    lemma_blank_attrs_before(ls, p, b, 0, Seq::empty());
}

/// A decoding result whose file, if any, has strictly ascending keys.
pub open spec fn sorted_result(r: Result<FileModel, ErrModel>) -> bool {
    match r {
        Ok(m) => sorted_keys(m.attrs) && sorted_keys(m.sigs),
        Err(_) => true,
    }
}

/// Zipping preserves ascending keys, whatever names arrive.
proof fn lemma_zip_sigs_keeps_sorted(
    names: Seq<Seq<u8>>,
    cols: Seq<Seq<Seq<u8>>>,
    j: int,
    acc: Seq<(Seq<u8>, Seq<Seq<u8>>)>,
)
    requires
        sorted_keys(acc),
    ensures
        sorted_keys(zip_sigs(names, cols, j, acc)),
    decreases names.len() - j,
{
    if 0 <= j < names.len() {
        let col = if j < cols.len() {
            cols[j]
        } else {
            Seq::empty()
        };
        crate::model::lemma_insert_pair_sorted(acc, names[j], col);
        lemma_zip_sigs_keeps_sorted(names, cols, j + 1, insert_pair(acc, names[j], col));
    }
}

/// The row phase only carries the attributes through; what it yields keeps
/// their order, and its signals are built by ordered insertion.
proof fn lemma_dec_rows_sorted(
    ls: Seq<Seq<u8>>,
    i: int,
    acc: Seq<(Seq<u8>, Seq<u8>)>,
    names: Seq<Seq<u8>>,
    cols: Seq<Seq<Seq<u8>>>,
)
    requires
        sorted_keys(acc),
    ensures
        sorted_result(dec_rows(ls, i, acc, names, cols)),
    decreases ls.len() - i, 0int,
{
    if i < 0 || i >= ls.len() {
        lemma_zip_sigs_keeps_sorted(names, cols, 0, Seq::empty());
    } else if is_blank(ls[i]) {
        lemma_dec_rows_sorted(ls, i + 1, acc, names, cols);
    } else {
        match crate::model::add_row(split_tabs(ls[i]), cols, 0) {
            Ok(c2) => {
                lemma_dec_rows_sorted(ls, i + 1, acc, names, c2);
            },
            Err(_) => {},
        }
    }
}

proof fn lemma_dec_names_sorted(ls: Seq<Seq<u8>>, i: int, acc: Seq<(Seq<u8>, Seq<u8>)>)
    requires
        sorted_keys(acc),
    ensures
        sorted_result(dec_names(ls, i, acc)),
    decreases ls.len() - i, 1int,
{
    if 0 <= i < ls.len() {
        if is_blank(ls[i]) {
            lemma_dec_names_sorted(ls, i + 1, acc);
        } else {
            let names = names_of(split_tabs(ls[i]));
            lemma_dec_rows_sorted(
                ls,
                i + 1,
                acc,
                names,
                Seq::new(names.len(), |j: int| Seq::<Seq<u8>>::empty()),
            );
        }
    }
}

proof fn lemma_dec_attrs_sorted(ls: Seq<Seq<u8>>, i: int, acc: Seq<(Seq<u8>, Seq<u8>)>)
    requires
        sorted_keys(acc),
    ensures
        sorted_result(dec_attrs(ls, i, acc)),
    decreases ls.len() - i, 2int,
{
    if 0 <= i < ls.len() {
        if is_blank(ls[i]) {
            lemma_dec_attrs_sorted(ls, i + 1, acc);
        } else if trim(ls[i]) == marker() {
            lemma_dec_names_sorted(ls, i + 1, acc);
        } else if find_byte(ls[i], TAB) == ls[i].len() {
        } else {
            let q = find_byte(ls[i], TAB);
            let k = trim(ls[i].take(q));
            let v = trim(ls[i].skip(q + 1));
            crate::model::lemma_insert_pair_sorted(acc, k, v);
            lemma_dec_attrs_sorted(ls, i + 1, insert_pair(acc, k, v));
        }
    }
}

/// The ordering invariant: whatever the input, a decoded file holds its
/// attribute keys and its signal names in strictly ascending order — unique
/// and sorted, the order in which encoding writes them back.
pub proof fn lemma_decode_sorted(s: Seq<u8>)
    ensures
        spec_decode(s) matches Ok(m) ==> sorted_keys(m.attrs) && sorted_keys(m.sigs),
{
    lemma_dec_attrs_sorted(split_lines(s), 0, Seq::empty());
}

/// The determinism law: what the encoder writes depends on the file's
/// attributes and signals alone, so equal files — whatever the history that
/// built them — encode to byte-identical streams, always in ascending key
/// order.
pub proof fn lemma_encode_deterministic(m1: FileModel, m2: FileModel)
    requires
        m1.attrs == m2.attrs,
        m1.sigs == m2.sigs,
    ensures
        spec_encode(m1) == spec_encode(m2),
{
}

} // verus!
