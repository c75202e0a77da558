//! The record pipeline: convert each raw row, report and drop the invalid
//! ones, keep the active records, and sort them stably by category.

use vstd::prelude::*;
use vstd::string::StringExecFns;
use crate::order::lex_le;
use crate::order::lemma_lex_le_antisymmetric;
use crate::order::lemma_lex_le_reflexive;
use crate::order::lemma_lex_le_total;
use crate::order::lemma_lex_le_transitive;
use crate::order::str_lex_le;
use crate::record::CsvFood;
use crate::record::Food;
use crate::record::active_token_value;
use crate::record::food_of;
use crate::record::invalid_active_message;

verus! {

broadcast use vstd::seq_lib::group_seq_lib_default;

/// The records a row sequence converts to and the active-filter keeps: one
/// record per row whose `active` token maps to `true`, in row order; rows
/// that map to `false` and rows with an invalid token contribute nothing.
pub open spec fn kept_foods(rows: Seq<CsvFood>) -> Seq<Food>
    decreases rows.len(),
{
    if rows.len() == 0 {
        Seq::empty()
    } else {
        kept_foods(rows.drop_last()) + if active_token_value(rows.last().active@) == Some(true) {
            seq![food_of(rows.last(), true)]
        } else {
            Seq::<Food>::empty()
        }
    }
}

/// The diagnostic line reported for an invalid `active` token: a fixed
/// marker, then the validation message.
pub open spec fn diagnostic_line(tok: Seq<char>) -> Seq<char> {
    "<ERROR> :: "@ + invalid_active_message(tok)
}

/// The diagnostics a row sequence produces: one line per row whose `active`
/// token is outside the vocabulary, in row order.
pub open spec fn diagnostic_lines(rows: Seq<CsvFood>) -> Seq<Seq<char>>
    decreases rows.len(),
{
    if rows.len() == 0 {
        Seq::empty()
    } else {
        diagnostic_lines(rows.drop_last()) + if active_token_value(rows.last().active@) is None {
            seq![diagnostic_line(rows.last().active@)]
        } else {
            Seq::<Seq<char>>::empty()
        }
    }
}

/// Converts every row in order, collecting the kept records and the
/// diagnostic lines side by side.
pub fn convert_rows(rows: Vec<CsvFood>) -> (r: (Vec<Food>, Vec<String>))
    ensures
        r.0@ == kept_foods(rows@),
        r.1.deep_view() == diagnostic_lines(rows@),
{
    let ghost all = rows@;
    let mut rest = rows;
    let mut out: Vec<Food> = Vec::new();
    let mut diags: Vec<String> = Vec::new();
    proof {
        assert(all.take(0) =~= Seq::<CsvFood>::empty());
        assert(all.skip(0) =~= all);
        assert(out@ =~= kept_foods(all.take(0)));
        assert(diags.deep_view() =~= diagnostic_lines(all.take(0)));
    }
    while rest.len() > 0
        invariant
            rest@.len() <= all.len(),
            rest@ == all.skip(all.len() - rest@.len()),
            out@ == kept_foods(all.take(all.len() - rest@.len())),
            diags.deep_view() == diagnostic_lines(all.take(all.len() - rest@.len())),
        decreases rest@.len(),
    {
        let ghost i = all.len() - rest@.len();
        let x = rest.remove(0);
        proof {
            assert(x == all[i as int]);
            assert(all.skip(i as int).remove(0) =~= all.skip(i + 1));
            assert(all.take(i + 1).drop_last() =~= all.take(i as int));
            assert(all.take(i + 1).last() == all[i as int]);
        }
        match Food::try_from(x) {
            Ok(f) => {
                if f.active {
                    out.push(f);
                    proof {
                        assert(out@ =~= kept_foods(all.take(i + 1)));
                    }
                } else {
                    proof {
                        assert(out@ =~= kept_foods(all.take(i + 1)));
                    }
                }
                proof {
                    assert(diags.deep_view() =~= diagnostic_lines(all.take(i + 1)));
                }
            },
            Err(m) => {
                let ghost prev = diags.deep_view();
                let ghost prevv = diags@;
                let mut line = "<ERROR> :: ".to_owned();
                line.append(m.as_str());
                diags.push(line);
                proof {
                    assert(out@ =~= kept_foods(all.take(i + 1)));
                    assert(diags@.last()@ == diagnostic_line(all[i as int].active@));
                    assert forall|j: int|
                        0 <= j < prevv.len() + 1 implies diags.deep_view()[j] == diagnostic_lines(
                        all.take(i + 1),
                    )[j] by {
                        if j < prevv.len() {
                            assert(diags@[j] == prevv[j]);
                            assert(prev[j] == prevv[j].deep_view());
                            assert(diagnostic_lines(all.take(i + 1))[j] == diagnostic_lines(
                                all.take(i as int),
                            )[j]);
                        } else {
                            assert(diags.deep_view()[j] == diags@[j].deep_view());
                        }
                    }
                    assert(diags.deep_view() =~= diagnostic_lines(all.take(i + 1)));
                }
            },
        }
    }
    proof {
        assert(all.take(all.len() as int) =~= all);
    }
    (out, diags)
}

/// Whether the records are in non-decreasing category order.
pub open spec fn sorted_by_category(s: Seq<Food>) -> bool {
    forall|i: int, j: int|
        #![trigger s[i], s[j]]
        0 <= i <= j < s.len() ==> lex_le(s[i].category@, s[j].category@)
}

/// The records of one category, in their order in `s`.
pub open spec fn category_records(s: Seq<Food>, c: Seq<char>) -> Seq<Food> {
    s.filter(|f: Food| f.category@ == c)
}

/// A single record filters to itself or to nothing, by its category.
proof fn lemma_filter_singleton(x: Food, c: Seq<char>)
    ensures
        category_records(seq![x], c) == if x.category@ == c {
            seq![x]
        } else {
            Seq::<Food>::empty()
        },
{
    reveal_with_fuel(Seq::filter, 2);
    assert(seq![x].drop_last() =~= Seq::<Food>::empty());
}

/// A sequence none of whose records has category `c` filters to nothing.
proof fn lemma_filter_none(s: Seq<Food>, c: Seq<char>)
    requires
        forall|k: int| 0 <= k < s.len() ==> (#[trigger] s[k]).category@ != c,
    ensures
        category_records(s, c) == Seq::<Food>::empty(),
    decreases s.len(),
{
    reveal_with_fuel(Seq::filter, 2);
    if s.len() > 0 {
        assert(forall|k: int| 0 <= k < s.len() - 1 ==> #[trigger] s.drop_last()[k] == s[k]);
        lemma_filter_none(s.drop_last(), c);
    }
}

/// Every record of a category slice occurs in the sequence it was filtered
/// from.
proof fn lemma_filter_subset(s: Seq<Food>, c: Seq<char>, i: int)
    requires
        0 <= i < category_records(s, c).len(),
    ensures
        s.contains(category_records(s, c)[i]),
    decreases s.len(),
{
    reveal_with_fuel(Seq::filter, 2);
    if s.len() > 0 {
        let d = s.drop_last();
        if i < category_records(d, c).len() {
            lemma_filter_subset(d, c, i);
            let x = category_records(d, c)[i];
            let k = choose|k: int| 0 <= k < d.len() && d[k] == x;
            assert(s[k] == x);
        } else {
            assert(s[s.len() - 1] == category_records(s, c)[i]);
        }
    }
}

/// Inserting a record below everything strictly above it rearranges nothing
/// within any single category: the category slices are those of appending.
proof fn lemma_insert_filter(s: Seq<Food>, x: Food, j: int, c: Seq<char>)
    requires
        0 <= j <= s.len(),
        forall|k: int| j <= k < s.len() ==> !lex_le((#[trigger] s[k]).category@, x.category@),
    ensures
        category_records(s.insert(j, x), c) == category_records(s.push(x), c),
{
    let a = s.subrange(0, j);
    let b = s.subrange(j, s.len() as int);
    assert(s =~= a + b);
    assert(s.insert(j, x) =~= (a + seq![x]) + b);
    assert(s.push(x) =~= (a + b) + seq![x]);
    lemma_filter_singleton(x, c);
    assert(category_records((a + seq![x]) + b, c) == category_records(a, c) + category_records(
        seq![x],
        c,
    ) + category_records(b, c));
    assert(category_records((a + b) + seq![x], c) == category_records(a, c) + category_records(
        b,
        c,
    ) + category_records(seq![x], c));
    if x.category@ == c {
        assert forall|k: int| 0 <= k < b.len() implies (#[trigger] b[k]).category@ != c by {
            assert(b[k] == s[j + k]);
            if b[k].category@ == c {
                lemma_lex_le_reflexive(x.category@);
            }
        }
        lemma_filter_none(b, c);
        assert(category_records(s.insert(j, x), c) =~= category_records(s.push(x), c));
    } else {
        assert(category_records(s.insert(j, x), c) =~= category_records(s.push(x), c));
    }
}

/// Sorts the records by category, stably: every category slice of the
/// result is exactly that of the input.
pub fn sort_foods(foods: Vec<Food>) -> (r: Vec<Food>)
    ensures
        sorted_by_category(r@),
        forall|c: Seq<char>| #[trigger] category_records(r@, c) == category_records(foods@, c),
{
    let ghost all = foods@;
    let mut rest = foods;
    let mut out: Vec<Food> = Vec::new();
    proof {
        assert(all.skip(0) =~= all);
        assert(all.take(0) =~= Seq::<Food>::empty());
        assert forall|c: Seq<char>|
            #[trigger] category_records(out@, c) == category_records(all.take(0), c) by {
            lemma_filter_none(Seq::<Food>::empty(), c);
            assert(out@ =~= Seq::<Food>::empty());
        }
    }
    while rest.len() > 0
        invariant
            rest@.len() <= all.len(),
            rest@ == all.skip(all.len() - rest@.len()),
            sorted_by_category(out@),
            out@.len() == all.len() - rest@.len(),
            forall|c: Seq<char>|
                #[trigger] category_records(out@, c) == category_records(
                    all.take(all.len() - rest@.len()),
                    c,
                ),
        decreases rest@.len(),
    {
        let ghost i = all.len() - rest@.len();
        let x = rest.remove(0);
        proof {
            assert(x == all[i as int]);
            assert(all.skip(i as int).remove(0) =~= all.skip(i + 1));
            assert(all.take(i + 1) =~= all.take(i as int).push(all[i as int]));
        }
        let mut j: usize = 0;
        while j < out.len() && str_lex_le(out[j].category.as_str(), x.category.as_str())
            invariant
                j <= out@.len(),
                forall|k: int|
                    0 <= k < j ==> lex_le((#[trigger] out@[k]).category@, x.category@),
            decreases out@.len() - j,
        {
            j = j + 1;
        }
        let ghost prevv = out@;
        out.insert(j, x);
        proof {
            assert(j == prevv.len() || !lex_le(prevv[j as int].category@, x.category@));
            assert forall|k: int|
                j <= k < prevv.len() implies !lex_le(
                (#[trigger] prevv[k]).category@,
                x.category@,
            ) by {
                if lex_le(prevv[k].category@, x.category@) {
                    lemma_lex_le_transitive(
                        prevv[j as int].category@,
                        prevv[k].category@,
                        x.category@,
                    );
                }
            }
            assert forall|k: int|
                j <= k < prevv.len() implies lex_le(
                x.category@,
                (#[trigger] prevv[k]).category@,
            ) by {
                lemma_lex_le_total(x.category@, prevv[k].category@);
            }
            prevv.insert_ensures(j as int, x);
            assert forall|p: int, q: int|
                #![trigger out@[p], out@[q]]
                0 <= p <= q < out@.len() implies lex_le(out@[p].category@, out@[q].category@) by {
                if p == q {
                    lemma_lex_le_reflexive(out@[p].category@);
                } else if q < j {
                    assert(out@[p] == prevv[p] && out@[q] == prevv[q]);
                } else if p > j {
                    assert(out@[p] == prevv[p - 1] && out@[q] == prevv[q - 1]);
                } else if p < j && q == j {
                    assert(out@[p] == prevv[p] && out@[q] == x);
                } else if p == j {
                    assert(out@[p] == x && out@[q] == prevv[q - 1]);
                } else {
                    assert(out@[p] == prevv[p] && out@[q] == prevv[q - 1]);
                    if q - 1 < j {
                        assert(lex_le(prevv[p].category@, prevv[q - 1].category@));
                    } else {
                        lemma_lex_le_transitive(
                            prevv[p].category@,
                            x.category@,
                            prevv[q - 1].category@,
                        );
                    }
                }
            }
            assert forall|c: Seq<char>|
                #[trigger] category_records(out@, c) == category_records(all.take(i + 1), c) by {
                lemma_insert_filter(prevv, x, j as int, c);
                assert(out@ == prevv.insert(j as int, x));
                assert(prevv.push(x) =~= prevv + seq![x]);
                assert(all.take(i + 1) =~= all.take(i as int) + seq![all[i as int]]);
                assert(category_records(prevv + seq![x], c) == category_records(prevv, c)
                    + category_records(seq![x], c));
                assert(category_records(all.take(i as int) + seq![all[i as int]], c)
                    == category_records(all.take(i as int), c) + category_records(
                    seq![all[i as int]],
                    c,
                ));
            }
        }
    }
    proof {
        assert(all.take(all.len() as int) =~= all);
    }
    out
}

/// The filter invariant: every record the conversion keeps is active.
pub proof fn lemma_kept_all_active(rows: Seq<CsvFood>)
    ensures
        forall|i: int|
            0 <= i < kept_foods(rows).len() ==> (#[trigger] kept_foods(rows)[i]).active,
    decreases rows.len(),
{
    if rows.len() > 0 {
        lemma_kept_all_active(rows.drop_last());
        let pre = kept_foods(rows.drop_last());
        assert forall|i: int|
            0 <= i < kept_foods(rows).len() implies (#[trigger] kept_foods(rows)[i]).active by {
            if i < pre.len() {
                assert(kept_foods(rows)[i] == pre[i]);
            } else {
                assert(kept_foods(rows)[i] == food_of(rows.last(), true));
            }
        }
    }
}

/// Runs the whole pipeline on loaded rows: converts each row in order,
/// reports invalid rows as diagnostic lines, keeps only the active records,
/// and sorts them stably by category.
pub fn run_pipeline(rows: Vec<CsvFood>) -> (r: (Vec<Food>, Vec<String>))
    ensures
        sorted_by_category(r.0@),
        forall|c: Seq<char>|
            #[trigger] category_records(r.0@, c) == category_records(kept_foods(rows@), c),
        forall|i: int| 0 <= i < r.0@.len() ==> (#[trigger] r.0@[i]).active,
        r.1.deep_view() == diagnostic_lines(rows@),
{
    let ghost all = rows@;
    let (foods, diags) = convert_rows(rows);
    let sorted = sort_foods(foods);
    proof {
        lemma_kept_all_active(all);
        assert forall|i: int| 0 <= i < sorted@.len() implies (#[trigger] sorted@[i]).active by {
            let c = sorted@[i].category@;
            let cr = category_records(sorted@, c);
            assert(cr.contains(sorted@[i]));
            let k = choose|k: int| 0 <= k < cr.len() && cr[k] == sorted@[i];
            lemma_filter_subset(kept_foods(all), c, k);
            let m = choose|m: int|
                0 <= m < kept_foods(all).len() && kept_foods(all)[m] == sorted@[i];
            assert(kept_foods(all)[m].active);
        }
    }
    (sorted, diags)
}

/// A row that does not convert to an active record contributes no record:
/// taking it out of the input leaves the kept records unchanged.  This
/// covers rows mapping to `false` and rows with an invalid token alike.
pub proof fn lemma_dropped_row(rows: Seq<CsvFood>, i: int)
    requires
        0 <= i < rows.len(),
        active_token_value(rows[i].active@) != Some(true),
    ensures
        kept_foods(rows) == kept_foods(rows.remove(i)),
    decreases rows.len(),
{
    if i == rows.len() - 1 {
        assert(rows.remove(i) =~= rows.drop_last());
        assert(kept_foods(rows) =~= kept_foods(rows.drop_last()));
    } else {
        let d = rows.drop_last();
        assert(rows.remove(i).drop_last() =~= d.remove(i));
        assert(rows.remove(i).last() == rows.last());
        assert(d[i] == rows[i]);
        lemma_dropped_row(d, i);
    }
}

/// A row whose token is in the vocabulary produces no diagnostic: taking it
/// out of the input leaves the diagnostic lines unchanged.
pub proof fn lemma_valid_row_no_diagnostic(rows: Seq<CsvFood>, i: int)
    requires
        0 <= i < rows.len(),
        active_token_value(rows[i].active@) is Some,
    ensures
        diagnostic_lines(rows) == diagnostic_lines(rows.remove(i)),
    decreases rows.len(),
{
    if i == rows.len() - 1 {
        assert(rows.remove(i) =~= rows.drop_last());
        assert(diagnostic_lines(rows) =~= diagnostic_lines(rows.drop_last()));
    } else {
        let d = rows.drop_last();
        assert(rows.remove(i).drop_last() =~= d.remove(i));
        assert(rows.remove(i).last() == rows.last());
        assert(d[i] == rows[i]);
        lemma_valid_row_no_diagnostic(d, i);
    }
}

/// Rows whose tokens are all in the vocabulary produce no diagnostics.
pub proof fn lemma_no_invalid_no_diagnostics(rows: Seq<CsvFood>)
    requires
        forall|j: int| 0 <= j < rows.len() ==> active_token_value((#[trigger] rows[j]).active@) is Some,
    ensures
        diagnostic_lines(rows) == Seq::<Seq<char>>::empty(),
    decreases rows.len(),
{
    if rows.len() > 0 {
        assert(forall|j: int| 0 <= j < rows.len() - 1 ==> #[trigger] rows.drop_last()[j] == rows[j]);
        lemma_no_invalid_no_diagnostics(rows.drop_last());
        assert(diagnostic_lines(rows) =~= Seq::<Seq<char>>::empty());
    }
}

/// A single row with an invalid token produces exactly one diagnostic line,
/// the one quoting its token.
pub proof fn lemma_single_invalid_single_diagnostic(rows: Seq<CsvFood>, i: int)
    requires
        0 <= i < rows.len(),
        active_token_value(rows[i].active@) is None,
        forall|j: int|
            0 <= j < rows.len() && j != i ==> active_token_value(
                (#[trigger] rows[j]).active@,
            ) is Some,
    ensures
        diagnostic_lines(rows) == seq![diagnostic_line(rows[i].active@)],
    decreases rows.len(),
{
    let d = rows.drop_last();
    assert(forall|j: int| 0 <= j < rows.len() - 1 ==> #[trigger] d[j] == rows[j]);
    if i == rows.len() - 1 {
        lemma_no_invalid_no_diagnostics(d);
        assert(diagnostic_lines(rows) =~= seq![diagnostic_line(rows[i].active@)]);
    } else {
        lemma_single_invalid_single_diagnostic(d, i);
        assert(diagnostic_lines(rows) =~= seq![diagnostic_line(rows[i].active@)]);
    }
}

/// A diagnostic line quotes the offending token verbatim: the token sits in
/// the line as a contiguous run.
pub proof fn lemma_diagnostic_names_token(tok: Seq<char>)
    ensures
        exists|a: int|
            0 <= a && a + tok.len() <= diagnostic_line(tok).len() && #[trigger] diagnostic_line(
                tok,
            ).subrange(a, a + tok.len()) == tok,
{
    let p = "<ERROR> :: "@ + "invalid value found in `active`: `"@;
    let a = p.len() as int;
    assert(diagnostic_line(tok).subrange(a, a + tok.len()) =~= tok);
}

/// Two sorted sequences with the same category slices are the same
/// sequence: a sorted order with a stability guarantee is unique.
pub proof fn lemma_sorted_slices_unique(a: Seq<Food>, b: Seq<Food>)
    requires
        sorted_by_category(a),
        sorted_by_category(b),
        forall|c: Seq<char>| #[trigger] category_records(a, c) == category_records(b, c),
    ensures
        a == b,
    decreases a.len() + b.len(),
{
    if a.len() == 0 {
        if b.len() > 0 {
            let c = b[0].category@;
            assert(category_records(b, c).contains(b[0]));
            lemma_filter_none(a, c);
        }
        assert(a =~= b);
    } else if b.len() == 0 {
        let c = a[0].category@;
        assert(category_records(a, c).contains(a[0]));
        lemma_filter_none(b, c);
        assert(a =~= b);
    } else {
        let ca = a[0].category@;
        let cb = b[0].category@;
        assert(lex_le(cb, ca)) by {
            assert(category_records(a, ca).contains(a[0]));
            let k = choose|k: int|
                0 <= k < category_records(b, ca).len() && category_records(b, ca)[k]
                    == category_records(a, ca)[0];
            assert(0 <= 0 < category_records(b, ca).len());
            lemma_filter_subset(b, ca, 0);
            let m = choose|m: int|
                0 <= m < b.len() && b[m] == category_records(b, ca)[0];
            assert(b[m].category@ == ca);
        }
        assert(lex_le(ca, cb)) by {
            assert(category_records(b, cb).contains(b[0]));
            assert(0 <= 0 < category_records(a, cb).len());
            lemma_filter_subset(a, cb, 0);
            let m = choose|m: int|
                0 <= m < a.len() && a[m] == category_records(a, cb)[0];
            assert(a[m].category@ == cb);
        }
        lemma_lex_le_antisymmetric(ca, cb);
        let a1 = a.skip(1);
        let b1 = b.skip(1);
        assert(a =~= seq![a[0]] + a1);
        assert(b =~= seq![b[0]] + b1);
        lemma_filter_singleton(a[0], ca);
        lemma_filter_singleton(b[0], ca);
        assert(category_records(a, ca) == seq![a[0]] + category_records(a1, ca));
        assert(category_records(b, ca) == seq![b[0]] + category_records(b1, ca));
        assert(category_records(a, ca)[0] == a[0]);
        assert(category_records(b, ca)[0] == b[0]);
        assert(a[0] == b[0]);
        assert forall|c: Seq<char>|
            #[trigger] category_records(a1, c) == category_records(b1, c) by {
            lemma_filter_singleton(a[0], c);
            lemma_filter_singleton(b[0], c);
            assert(category_records(a, c) == category_records(seq![a[0]], c) + category_records(
                a1,
                c,
            ));
            assert(category_records(b, c) == category_records(seq![b[0]], c) + category_records(
                b1,
                c,
            ));
            if c == a[0].category@ {
                assert(category_records(a1, c) =~= category_records(a, c).skip(1));
                assert(category_records(b1, c) =~= category_records(b, c).skip(1));
            }
        }
        assert(sorted_by_category(a1)) by {
            assert(forall|p: int| 0 <= p < a1.len() ==> #[trigger] a1[p] == a[p + 1]);
        }
        assert(sorted_by_category(b1)) by {
            assert(forall|p: int| 0 <= p < b1.len() ==> #[trigger] b1[p] == b[p + 1]);
        }
        lemma_sorted_slices_unique(a1, b1);
        assert(a =~= b);
    }
}

/// The pipeline is a pure function of its rows: any two outcomes that meet
/// `run_pipeline`'s contract on the same rows are identical, so re-running
/// it can only repeat its answer.
pub proof fn lemma_pipeline_deterministic(
    rows: Seq<CsvFood>,
    r1: Seq<Food>,
    d1: Seq<Seq<char>>,
    r2: Seq<Food>,
    d2: Seq<Seq<char>>,
)
    requires
        sorted_by_category(r1),
        forall|c: Seq<char>|
            #[trigger] category_records(r1, c) == category_records(kept_foods(rows), c),
        d1 == diagnostic_lines(rows),
        sorted_by_category(r2),
        forall|c: Seq<char>|
            #[trigger] category_records(r2, c) == category_records(kept_foods(rows), c),
        d2 == diagnostic_lines(rows),
    ensures
        r1 == r2,
        d1 == d2,
{
    lemma_sorted_slices_unique(r1, r2);
}

} // verus!
