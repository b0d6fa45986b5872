//! The query engine: substring search across both backends.  The match is
//! case-sensitive on the raw stored text; lines or rows that fail to
//! decode are skipped, never an error.

use vstd::prelude::*;
use crate::dict::DbRow;
use crate::dict::DbRowV;
use crate::dict::row_line;
use crate::dict::spec_decode;
use crate::dict::spec_lines;
use crate::dict::Vocab;
use crate::dict::VocabV;
use crate::text::chars_of;
use crate::text::contains_chars;
use crate::text::contains_sub;
use crate::text::lemma_chars_deep_view;
use crate::text::lemma_strings_deep_view;
use crate::dict::strip_cr;
use crate::dict::strip_cr_vec;

verus! {

/// The records of a list of lines that contain the pattern and decode;
/// every other line is skipped.
pub open spec fn query_lines(lines: Seq<Seq<char>>, pat: Seq<char>) -> Seq<VocabV>
    decreases lines.len(),
{
    if lines.len() == 0 {
        Seq::empty()
    } else {
        let rest = query_lines(lines.drop_first(), pat);
        if contains_sub(lines[0], pat) && spec_decode(lines[0]) is Some {
            seq![spec_decode(lines[0]).unwrap()] + rest
        } else {
            rest
        }
    }
}

/// The matching records of one dictionary file's text.
pub open spec fn query_text_spec(contents: Seq<char>, pat: Seq<char>) -> Seq<VocabV> {
    query_lines(spec_lines(contents), pat)
}

/// A row matches when its raw name or its raw meanings field contains the
/// pattern.
pub open spec fn row_matches(r: DbRowV, pat: Seq<char>) -> bool {
    contains_sub(r.name, pat) || contains_sub(r.meanings, pat)
}

/// The records of the rows that match and decode; every other row is
/// skipped.
pub open spec fn query_rows_spec(rows: Seq<DbRowV>, pat: Seq<char>) -> Seq<VocabV>
    decreases rows.len(),
{
    if rows.len() == 0 {
        Seq::empty()
    } else {
        let rest = query_rows_spec(rows.drop_first(), pat);
        if row_matches(rows[0], pat) && spec_decode(row_line(rows[0])) is Some {
            seq![spec_decode(row_line(rows[0])).unwrap()] + rest
        } else {
            rest
        }
    }
}

/// The matching records of a list of dictionary files' texts, in file
/// order.
pub open spec fn query_files_spec(files: Seq<Seq<char>>, pat: Seq<char>) -> Seq<VocabV>
    decreases files.len(),
{
    if files.len() == 0 {
        Seq::empty()
    } else {
        query_text_spec(files[0], pat) + query_files_spec(files.drop_first(), pat)
    }
}

/// A whole query: the database matches first, in row order, then the
/// file matches, in the order the files were handed in.
pub open spec fn spec_query(rows: Seq<DbRowV>, files: Seq<Seq<char>>, pat: Seq<char>) -> Seq<
    VocabV,
> {
    query_rows_spec(rows, pat) + query_files_spec(files, pat)
}

/// Search one dictionary file's text: keep every line that contains the
/// pattern and decodes, in line order.
pub fn query_text(contents: &str, pattern: &str) -> (r: Vec<Vocab>)
    ensures
        r.deep_view() == query_text_spec(contents@, pattern@),
{
    let pv = chars_of(pattern);
    let cs = chars_of(contents);
    let raw = crate::text::split_chars(&cs, '\n');
    proof {
        lemma_chars_deep_view(&raw);
    }
    let ghost lns = spec_lines(contents@);
    let mut out: Vec<Vocab> = Vec::new();
    proof {
        assert(lns.skip(0) =~= lns);
        assert(out.deep_view() + query_lines(lns, pattern@) =~= query_lines(lns, pattern@));
    }
    let mut i: usize = 0;
    while i < raw.len()
        invariant
            i <= raw@.len(),
            lns == spec_lines(contents@),
            pv@ == pattern@,
            raw@.len() == lns.len(),
            forall|k: int| 0 <= k < raw@.len() ==> strip_cr((#[trigger] raw@[k])@) == lns[k],
            out.deep_view() + query_lines(lns.skip(i as int), pattern@) == query_lines(
                lns,
                pattern@,
            ),
        decreases raw@.len() - i,
    {
        let ghost rem = lns.skip(i as int);
        proof {
            assert(rem.len() > 0);
            assert(rem[0] == lns[i as int]);
            assert(rem.drop_first() =~= lns.skip(i as int + 1));
        }
        let line = strip_cr_vec(&raw[i]);
        if contains_chars(&line, &pv) {
            match Vocab::from_string(crate::text::string_of(&line)) {
                Ok(v) => {
                    let ghost dv = out.deep_view();
                    let ghost vv = v@;
                    out.push(v);
                    proof {
                        assert(out.deep_view() =~~= dv.push(vv));
                        assert(query_lines(rem, pattern@) == seq![vv] + query_lines(
                            lns.skip(i as int + 1),
                            pattern@,
                        ));
                        assert(dv.push(vv) + query_lines(lns.skip(i as int + 1), pattern@) =~= dv
                            + (seq![vv] + query_lines(lns.skip(i as int + 1), pattern@)));
                    }
                },
                Err(_) => {
                    proof {
                        assert(query_lines(rem, pattern@) == query_lines(
                            lns.skip(i as int + 1),
                            pattern@,
                        ));
                    }
                },
            }
        } else {
            proof {
                assert(query_lines(rem, pattern@) == query_lines(
                    lns.skip(i as int + 1),
                    pattern@,
                ));
            }
        }
        i = i + 1;
    }
    proof {
        assert(lns.skip(lns.len() as int) =~= Seq::<Seq<char>>::empty());
        assert(out.deep_view() + Seq::<VocabV>::empty() =~= out.deep_view());
    }
    out
}

/// Search the database rows: keep every row whose raw name or meanings
/// field contains the pattern and whose rebuilt line decodes, in row
/// order.
pub fn query_db_rows(rows: &Vec<DbRow>, pattern: &str) -> (r: Vec<Vocab>)
    ensures
        r.deep_view() == query_rows_spec(rows.deep_view(), pattern@),
{
    let pv = chars_of(pattern);
    let ghost rv = rows.deep_view();
    let mut out: Vec<Vocab> = Vec::new();
    proof {
        assert(rv.skip(0) =~= rv);
        assert(out.deep_view() + query_rows_spec(rv, pattern@) =~= query_rows_spec(rv, pattern@));
    }
    let mut i: usize = 0;
    while i < rows.len()
        invariant
            i <= rows@.len(),
            rv == rows.deep_view(),
            pv@ == pattern@,
            rows@.len() == rv.len(),
            forall|k: int| 0 <= k < rows@.len() ==> (#[trigger] rows@[k])@ == rv[k],
            out.deep_view() + query_rows_spec(rv.skip(i as int), pattern@) == query_rows_spec(
                rv,
                pattern@,
            ),
        decreases rows@.len() - i,
    {
        let ghost rem = rv.skip(i as int);
        proof {
            assert(rem.len() > 0);
            assert(rem[0] == rv[i as int]);
            assert(rem.drop_first() =~= rv.skip(i as int + 1));
        }
        let name_cs = chars_of(rows[i].name.as_str());
        let means_cs = chars_of(rows[i].meanings.as_str());
        let matched = contains_chars(&name_cs, &pv) || contains_chars(&means_cs, &pv);
        if matched {
            match rows[i].decode() {
                Ok(v) => {
                    let ghost dv = out.deep_view();
                    let ghost vv = v@;
                    out.push(v);
                    proof {
                        assert(out.deep_view() =~~= dv.push(vv));
                        assert(query_rows_spec(rem, pattern@) == seq![vv] + query_rows_spec(
                            rv.skip(i as int + 1),
                            pattern@,
                        ));
                        assert(dv.push(vv) + query_rows_spec(rv.skip(i as int + 1), pattern@)
                            =~= dv + (seq![vv] + query_rows_spec(rv.skip(i as int + 1), pattern@)));
                    }
                },
                Err(_) => {
                    proof {
                        assert(query_rows_spec(rem, pattern@) == query_rows_spec(
                            rv.skip(i as int + 1),
                            pattern@,
                        ));
                    }
                },
            }
        } else {
            proof {
                assert(query_rows_spec(rem, pattern@) == query_rows_spec(
                    rv.skip(i as int + 1),
                    pattern@,
                ));
            }
        }
        i = i + 1;
    }
    proof {
        assert(rv.skip(rv.len() as int) =~= Seq::<DbRowV>::empty());
        assert(out.deep_view() + Seq::<VocabV>::empty() =~= out.deep_view());
    }
    out
}

/// A whole query across both backends: the rows the caller read from the
/// table, and the texts of the files found under the dictionary tree, in
/// walk order.  Database matches come first, then file matches.
pub fn query(rows: &Vec<DbRow>, files: &Vec<String>, pattern: &str) -> (r: Vec<Vocab>)
    ensures
        r.deep_view() == spec_query(rows.deep_view(), files.deep_view(), pattern@),
{
    let mut out = query_db_rows(rows, pattern);
    let ghost fv = files.deep_view();
    proof {
        lemma_strings_deep_view(files);
        assert(fv.skip(0) =~= fv);
        assert(out.deep_view() + query_files_spec(fv, pattern@) =~= query_rows_spec(
            rows.deep_view(),
            pattern@,
        ) + query_files_spec(fv, pattern@));
    }
    let mut i: usize = 0;
    while i < files.len()
        invariant
            i <= files@.len(),
            fv == files.deep_view(),
            files@.len() == fv.len(),
            forall|k: int| 0 <= k < files@.len() ==> (#[trigger] files@[k])@ == fv[k],
            out.deep_view() + query_files_spec(fv.skip(i as int), pattern@) == spec_query(
                rows.deep_view(),
                fv,
                pattern@,
            ),
        decreases files@.len() - i,
    {
        let ghost rem = fv.skip(i as int);
        proof {
            assert(rem.len() > 0);
            assert(rem[0] == fv[i as int]);
            assert(rem.drop_first() =~= fv.skip(i as int + 1));
        }
        let mut found = query_text(files[i].as_str(), pattern);
        let ghost dv = out.deep_view();
        let ghost fdv = found.deep_view();
        append_vocab(&mut out, found);
        proof {
            assert(query_files_spec(rem, pattern@) == fdv + query_files_spec(
                fv.skip(i as int + 1),
                pattern@,
            ));
            assert((dv + fdv) + query_files_spec(fv.skip(i as int + 1), pattern@) =~= dv + (fdv
                + query_files_spec(fv.skip(i as int + 1), pattern@)));
        }
        i = i + 1;
    }
    proof {
        assert(fv.skip(fv.len() as int) =~= Seq::<Seq<char>>::empty());
        assert(out.deep_view() + Seq::<VocabV>::empty() =~= out.deep_view());
    }
    out
}

/// Move all records of `src` to the end of `out`.
fn append_vocab(out: &mut Vec<Vocab>, src: Vec<Vocab>)
    ensures
        final(out).deep_view() == old(out).deep_view() + src.deep_view(),
{
    let ghost sv = src.deep_view();
    let mut rest = src;
    out.append(&mut rest);
    proof {
        assert(out.deep_view() =~~= old(out).deep_view() + sv);
    }
}

} // verus!
