//! The line-oriented codec: it drives the store from a sequence of raw
//! lines (skipping blanks and comments, taking the first remaining line as
//! the header) and renders the store's contents back into the same tabular
//! form, in the store's remembered column order.

use vstd::prelude::*;

use crate::project::{column_name, column_names, error_message, ErrV, ParseError, ProjectV};
use crate::storage::{insert_spec, store_wf, Storage, StorageM};
use crate::text::{
    join_row, join_tabs, lemma_vec_deep, nat_str, push_nat, row_fields, split_row, str_eq,
    str_refs, trim, trim_spec,
};

verus! {

/// A line the codec passes over: empty once trimmed, or opening with the
/// comment mark once trimmed.
pub open spec fn line_skipped(s: Seq<char>) -> bool {
    trim_spec(s).len() == 0 || trim_spec(s)[0] == '#'
}

/// Driving the store over the lines from index `i` on: a skipped line
/// changes nothing, the first kept line becomes the header, every later
/// kept line is split, trimmed and inserted; the first failing row stops
/// the run, naming its 1-based line.
pub open spec fn codec_spec(m: StorageM, lines: Seq<Seq<char>>, i: int, header_seen: bool) -> (
    StorageM,
    Result<(), (int, ErrV)>,
)
    decreases lines.len() - i,
{
    if i < 0 || i >= lines.len() {
        (m, Ok(()))
    } else if line_skipped(lines[i]) {
        codec_spec(m, lines, i + 1, header_seen)
    } else if !header_seen {
        codec_spec(StorageM { columns: row_fields(lines[i]), ..m }, lines, i + 1, true)
    } else {
        let stepped = insert_spec(m, row_fields(lines[i]));
        match stepped.1 {
            Ok(u) => codec_spec(stepped.0, lines, i + 1, true),
            Err(e) => (stepped.0, Err((i + 1, e))),
        }
    }
}

/// A row failure with its 1-based line number.
#[derive(Debug, PartialEq)]
pub struct LineError {
    pub line: usize,
    pub error: ParseError,
}

/// The failure rendered for the user.
pub open spec fn line_error_message(line: int, e: ErrV) -> Seq<char> {
    "on line: "@ + nat_str(line) + ", parse error: "@ + error_message(e)
}

impl LineError {
    pub fn message(&self) -> (r: String)
        ensures
            r@ == line_error_message(self.line as int, self.error@),
    {
        let mut out = "on line: ".to_owned();
        push_nat(&mut out, self.line as u64);
        out.append(", parse error: ");
        let m = self.error.message();
        out.append(m.as_str());
        out
    }
}

/// Parse a sequence of raw lines into the store. Blank lines and comment
/// lines are skipped; the first kept line names the columns; every later
/// kept line is inserted. The first row that fails stops the run and is
/// reported with its line number; rows before it stay inserted.
pub fn parse_tsv(lines: &Vec<String>, storage: &mut Storage) -> (r: Result<(), LineError>)
    ensures
        ({
            let stepped = codec_spec(old(storage)@, lines.deep_view(), 0, false);
            &&& final(storage)@ == stepped.0
            &&& match r {
                Ok(()) => stepped.1 is Ok,
                Err(e) => stepped.1 == Err::<(), (int, ErrV)>((e.line as int, e.error@)),
            }
        }),
        store_wf(old(storage)@) ==> store_wf(final(storage)@),
{
    let ghost l = lines.deep_view();
    let ghost m0 = storage@;
    proof {
        lemma_vec_deep(*lines);
    }
    let n = lines.len();
    let mut i: usize = 0;
    let mut header_seen = false;
    while i < n
        invariant
            0 <= i <= n,
            n == lines@.len(),
            l == lines.deep_view(),
            l.len() == n,
            forall|x: int| 0 <= x < n ==> l[x] == #[trigger] lines@[x]@,
            m0 == old(storage)@,
            codec_spec(m0, l, 0, false) == codec_spec(storage@, l, i as int, header_seen),
            store_wf(m0) ==> store_wf(storage@),
        decreases n - i,
    {
        let line = &lines[i];
        let t = trim(line.as_str());
        let skipped = if t.unicode_len() == 0 {
            true
        } else {
            t.get_char(0) == '#'
        };
        proof {
            assert(line@ == l[i as int]);
            assert(skipped == line_skipped(l[i as int]));
        }
        if !skipped {
            let fields = split_row(line.as_str());
            let refs = str_refs(&fields);
            proof {
                assert(refs.deep_view() == row_fields(l[i as int]));
            }
            if header_seen {
                let ghost cur = storage@;
                match storage.insert(refs) {
                    Ok(()) => {
                        proof {
                            let stepped = insert_spec(cur, row_fields(l[i as int]));
                            assert(storage@ == stepped.0);
                            assert(codec_spec(cur, l, i as int, true) == codec_spec(
                                storage@,
                                l,
                                i + 1,
                                true,
                            ));
                        }
                    },
                    Err(e) => {
                        proof {
                            let stepped = insert_spec(cur, row_fields(l[i as int]));
                            assert(storage@ == stepped.0);
                            assert(codec_spec(cur, l, i as int, true) == (
                                stepped.0,
                                Err::<(), (int, ErrV)>((i + 1, e@)),
                            ));
                        }
                        return Err(LineError { line: i + 1, error: e });
                    },
                }
            } else {
                let ghost cur = storage@;
                storage.set_columns(refs);
                header_seen = true;
                proof {
                    assert(storage@ == StorageM { columns: row_fields(l[i as int]), ..cur });
                    assert(codec_spec(cur, l, i as int, false) == codec_spec(
                        storage@,
                        l,
                        i + 1,
                        true,
                    ));
                }
            }
        }
        i = i + 1;
    }
    Ok(())
}

/// Whether every mapped column name is one of the canonical eight.
pub open spec fn columns_known(cols: Seq<Seq<char>>) -> bool {
    forall|j: int|
        0 <= j < cols.len() ==> exists|k: int|
            0 <= k < 8 && #[trigger] cols[j] == column_names()[k]
}

/// The first canonical index carrying `name`, from `k` on; 8 when none.
pub open spec fn first_canon(name: Seq<char>, k: int) -> int
    decreases 8 - k,
{
    if k < 0 || k >= 8 {
        8
    } else if column_names()[k] == name {
        k
    } else {
        first_canon(name, k + 1)
    }
}

pub proof fn lemma_first_canon(name: Seq<char>, k: int)
    requires
        0 <= k <= 8,
    ensures
        k <= first_canon(name, k) <= 8,
        forall|j: int| k <= j < first_canon(name, k) ==> column_names()[j] != name,
        first_canon(name, k) < 8 ==> column_names()[first_canon(name, k)] == name,
    decreases 8 - k,
{
    if k < 8 && column_names()[k] != name {
        lemma_first_canon(name, k + 1);
    }
}

/// The mapped row of one record: its canonical field texts rearranged into
/// the store's column order.
pub open spec fn out_row(p: ProjectV, cols: Seq<Seq<char>>) -> Seq<Seq<char>> {
    Seq::new(cols.len(), |j: int| crate::project::format_record(p)[first_canon(cols[j], 0)])
}

/// The rendered lines of the records from index `i` on.
pub open spec fn render_rows(ps: Seq<ProjectV>, cols: Seq<Seq<char>>, i: int) -> Seq<char>
    decreases ps.len() - i,
{
    if i < 0 || i >= ps.len() {
        Seq::empty()
    } else {
        join_tabs(out_row(ps[i], cols)) + seq!['\n'] + render_rows(ps, cols, i + 1)
    }
}

/// The full rendering: the header line in mapped order, then one line per
/// retained record, each line closed with a newline.
pub open spec fn render_spec(m: StorageM) -> Seq<char> {
    join_tabs(m.columns) + seq!['\n'] + render_rows(m.projects, m.columns, 0)
}

/// The first canonical index of a canonical column name.
fn find_canon(name: &str) -> (k: usize)
    requires
        exists|k0: int| 0 <= k0 < 8 && name@ == column_names()[k0],
    ensures
        k < 8,
        first_canon(name@, 0) == k as int,
        name@ == column_names()[k as int],
{
    let mut k: usize = 0;
    while k < 8
        invariant
            0 <= k <= 8,
            forall|x: int| 0 <= x < k ==> column_names()[x] != name@,
            exists|k0: int| 0 <= k0 < 8 && name@ == column_names()[k0],
        decreases 8 - k,
    {
        if str_eq(name, column_name(k)) {
            proof {
                lemma_first_canon(name@, 0);
                let fc = first_canon(name@, 0);
                assert(fc == k as int) by {
                    if fc < k as int {
                        assert(column_names()[fc] != name@);
                        assert(column_names()[fc] == name@);
                    }
                    if fc > k as int {
                        assert(column_names()[k as int] != name@);
                    }
                }
            }
            return k;
        }
        k = k + 1;
    }
    proof {
        let k0 = choose|k0: int| 0 <= k0 < 8 && name@ == column_names()[k0];
        assert(column_names()[k0] != name@);
        assert(false);
    }
    0
}

/// Render the store back to tabular text: the header line from the mapped
/// column order, then each retained record with its fields rearranged to
/// match that header.
pub fn write_tsv(storage: &Storage) -> (out: String)
    requires
        store_wf(storage@),
        columns_known(storage@.columns),
    ensures
        out@ == render_spec(storage@),
{
    let ghost m = storage@;
    let columns = storage.get_columns();
    let mut out = join_row(&columns);
    out.append("\n");
    proof {
        reveal_strlit("\n");
        assert("\n"@ =~= seq!['\n']);
        assert(out@ == join_tabs(m.columns) + seq!['\n']);
        assert(render_spec(m) == out@ + render_rows(m.projects, m.columns, 0));
    }
    let n = storage.projects.len();
    let mut idx: usize = 0;
    while idx < n
        invariant
            0 <= idx <= n,
            n == storage.projects@.len(),
            m == storage@,
            store_wf(m),
            columns_known(m.columns),
            columns.deep_view() == m.columns,
            columns@.len() == m.columns.len(),
            render_spec(m) == out@ + render_rows(m.projects, m.columns, idx as int),
        decreases n - idx,
    {
        let p = &storage.projects[idx];
        proof {
            lemma_vec_deep(storage.projects);
            assert(p@ == m.projects[idx as int]);
            lemma_vec_deep(columns);
        }
        let mut vals: Vec<String> = Vec::new();
        let cn = columns.len();
        let mut j: usize = 0;
        while j < cn
            invariant
                0 <= j <= cn,
                cn == columns@.len(),
                cn == m.columns.len(),
                m == storage@,
                store_wf(m),
                columns_known(m.columns),
                columns.deep_view() == m.columns,
                p@ == m.projects[idx as int],
                0 <= idx < m.projects.len(),
                vals@.len() == j,
                forall|x: int|
                    0 <= x < j ==> (#[trigger] vals@[x])@ == out_row(p@, m.columns)[x],
            decreases cn - j,
        {
            proof {
                lemma_vec_deep(columns);
                assert(columns@[j as int]@ == m.columns[j as int]);
                assert(exists|k0: int|
                    0 <= k0 < 8 && m.columns[j as int] == column_names()[k0]);
                assert(store_wf(m));
                assert(crate::project::project_wf(p@));
            }
            let k = find_canon(columns[j].as_str());
            vals.push(p.format_field(k));
            j = j + 1;
        }
        let rowtext = join_row(&vals);
        let ghost out0 = out@;
        out.append(rowtext.as_str());
        out.append("\n");
        proof {
            reveal_strlit("\n");
            assert("\n"@ =~= seq!['\n']);
            lemma_vec_deep(vals);
            assert(vals.deep_view() =~= out_row(p@, m.columns));
            assert(rowtext@ == join_tabs(out_row(p@, m.columns)));
            assert(render_rows(m.projects, m.columns, idx as int) == join_tabs(
                out_row(m.projects[idx as int], m.columns),
            ) + seq!['\n'] + render_rows(m.projects, m.columns, idx + 1));
            assert(out0 + render_rows(m.projects, m.columns, idx as int) =~= out@ + render_rows(
                m.projects,
                m.columns,
                idx + 1,
            ));
        }
        idx = idx + 1;
    }
    proof {
        assert(render_rows(m.projects, m.columns, n as int) =~= Seq::<char>::empty());
        assert(out@ + Seq::<char>::empty() =~= out@);
    }
    out
}

} // verus!
