//! The column-indexed store: it remembers the header's column order, maps
//! each incoming row from file order onto the canonical schema, parses and
//! filters it, and keeps the accepted records; a stable sort by start date
//! can reorder them.

use vstd::prelude::*;
use vstd::seq_lib::*;

use crate::date::{date_le_spec, StartDate};
use crate::project::{
    column_name, column_names, parse_record_spec, project_wf, ErrV, ParseError, Project, ProjectV,
};
use crate::text::str_eq;

verus! {

/// A pluggable row predicate: a row is retained only when every installed
/// predicate passes.
#[derive(Debug)]
pub enum Predicate {
    /// Passes every record.
    KeepAll,
    /// Passes records whose identifier equals the given one.
    IdEquals(String),
}

/// The mathematical form of a predicate.
pub enum PredV {
    KeepAll,
    IdEquals(Seq<char>),
}

impl View for Predicate {
    type V = PredV;

    open spec fn view(&self) -> PredV {
        match self {
            Predicate::KeepAll => PredV::KeepAll,
            Predicate::IdEquals(id) => PredV::IdEquals(id@),
        }
    }
}

impl DeepView for Predicate {
    type V = PredV;

    open spec fn deep_view(&self) -> PredV {
        self.view()
    }
}

/// Whether one predicate passes a record.
pub open spec fn pred_passes(f: PredV, p: ProjectV) -> bool {
    match f {
        PredV::KeepAll => true,
        PredV::IdEquals(id) => p.id == id,
    }
}

/// Whether every predicate of the chain passes a record.
pub open spec fn all_pass(fs: Seq<PredV>, p: ProjectV) -> bool {
    forall|i: int| 0 <= i < fs.len() ==> pred_passes(#[trigger] fs[i], p)
}

impl Predicate {
    /// Whether this predicate passes the record.
    pub fn eval(&self, p: &Project) -> (r: bool)
        ensures
            r == pred_passes(self@, p@),
    {
        match self {
            Predicate::KeepAll => true,
            Predicate::IdEquals(id) => str_eq(id.as_str(), p.id.as_str()),
        }
    }
}

/// A chain of two predicates passes a record exactly when both do.
pub proof fn lemma_two_predicates(f0: PredV, f1: PredV, p: ProjectV)
    ensures
        all_pass(seq![f0, f1], p) <==> pred_passes(f0, p) && pred_passes(f1, p),
{
    let fs = seq![f0, f1];
    assert(fs[0] == f0 && fs[1] == f1);
}

/// An empty predicate chain passes every record.
pub proof fn lemma_empty_predicates(p: ProjectV)
    ensures
        all_pass(Seq::<PredV>::empty(), p),
{
}

/// The store: the current column order, the retained records, and the
/// predicate chain installed at construction.
pub struct Storage {
    pub columns: Vec<String>,
    pub projects: Vec<Project>,
    pub filters: Vec<Predicate>,
}

/// The mathematical form of the store.
pub struct StorageM {
    pub columns: Seq<Seq<char>>,
    pub projects: Seq<ProjectV>,
    pub filters: Seq<PredV>,
}

impl View for Storage {
    type V = StorageM;

    open spec fn view(&self) -> StorageM {
        StorageM {
            columns: self.columns.deep_view(),
            projects: self.projects.deep_view(),
            filters: self.filters.deep_view(),
        }
    }
}

/// Every retained record is well formed.
pub open spec fn store_wf(m: StorageM) -> bool {
    forall|i: int| 0 <= i < m.projects.len() ==> project_wf(#[trigger] m.projects[i])
}

/// The position a column name was last assigned, or -1 when the mapping
/// does not know the name; a later assignment of a repeated name wins.
pub open spec fn last_index_of(cols: Seq<Seq<char>>, name: Seq<char>) -> int
    decreases cols.len(),
{
    if cols.len() == 0 {
        -1
    } else if cols.last() == name {
        cols.len() - 1
    } else {
        last_index_of(cols.drop_last(), name)
    }
}

pub proof fn lemma_last_index_of(cols: Seq<Seq<char>>, name: Seq<char>)
    ensures
        -1 <= last_index_of(cols, name) < cols.len(),
        last_index_of(cols, name) >= 0 ==> cols[last_index_of(cols, name)] == name,
        forall|j: int| last_index_of(cols, name) < j < cols.len() ==> #[trigger] cols[j] != name,
    decreases cols.len(),
{
    if cols.len() > 0 && cols.last() != name {
        lemma_last_index_of(cols.drop_last(), name);
        let d = cols.drop_last();
        assert(forall|j: int| 0 <= j < d.len() ==> #[trigger] d[j] == cols[j]);
        assert forall|j: int|
            last_index_of(cols, name) < j < cols.len() implies #[trigger] cols[j] != name by {
            if j < cols.len() - 1 {
                assert(d[j] != name);
            }
        }
    }
}

/// Whether canonical column `k` can be taken from the row.
pub open spec fn col_good(cols: Seq<Seq<char>>, rec: Seq<Seq<char>>, k: int) -> bool {
    0 <= last_index_of(cols, column_names()[k]) < rec.len()
}

pub open spec fn reproject_ok(cols: Seq<Seq<char>>, rec: Seq<Seq<char>>) -> bool {
    forall|k: int| 0 <= k < 8 ==> col_good(cols, rec, k)
}

/// The row's values rearranged into canonical order.
pub open spec fn reprojected(cols: Seq<Seq<char>>, rec: Seq<Seq<char>>) -> Seq<Seq<char>> {
    Seq::new(8, |k: int| rec[last_index_of(cols, column_names()[k])])
}

/// The first canonical column that cannot be taken from the row, or 8.
pub open spec fn first_bad_col(cols: Seq<Seq<char>>, rec: Seq<Seq<char>>, k: int) -> int
    decreases 8 - k,
{
    if k >= 8 {
        8
    } else if !col_good(cols, rec, k) {
        k
    } else {
        first_bad_col(cols, rec, k + 1)
    }
}

pub proof fn lemma_first_bad_col(cols: Seq<Seq<char>>, rec: Seq<Seq<char>>, k: int)
    requires
        0 <= k <= 8,
    ensures
        k <= first_bad_col(cols, rec, k) <= 8,
        forall|j: int| k <= j < first_bad_col(cols, rec, k) ==> col_good(cols, rec, j),
        first_bad_col(cols, rec, k) < 8 ==> !col_good(cols, rec, first_bad_col(cols, rec, k)),
    decreases 8 - k,
{
    if k < 8 && col_good(cols, rec, k) {
        lemma_first_bad_col(cols, rec, k + 1);
    }
}

/// Re-ordering a row into canonical order: the value of each canonical
/// column is read from its mapped position; an unmapped canonical name, or
/// a mapped position beyond the row's end, is the error of the first such
/// column.
pub open spec fn reproject_spec(cols: Seq<Seq<char>>, rec: Seq<Seq<char>>) -> Result<
    Seq<Seq<char>>,
    ErrV,
> {
    if reproject_ok(cols, rec) {
        Ok(reprojected(cols, rec))
    } else {
        let k = first_bad_col(cols, rec, 0);
        if last_index_of(cols, column_names()[k]) < 0 {
            Err(ErrV::UnknownColumn(column_names()[k]))
        } else {
            Err(ErrV::WrongColumnCount)
        }
    }
}

/// One insertion: the row is re-ordered, parsed, and, when every predicate
/// passes, appended; a failure leaves the store unchanged and is returned.
pub open spec fn insert_spec(m: StorageM, rec: Seq<Seq<char>>) -> (StorageM, Result<(), ErrV>) {
    match reproject_spec(m.columns, rec) {
        Err(e) => (m, Err(e)),
        Ok(fields) => match parse_record_spec(fields) {
            Err(e) => (m, Err(e)),
            Ok(p) => if all_pass(m.filters, p) {
                (StorageM { projects: m.projects.push(p), ..m }, Ok(()))
            } else {
                (m, Ok(()))
            },
        },
    }
}

/// Insertion never changes the column mapping or the predicate chain: once
/// a header has set the mapping to some permutation of the names, the
/// columns read back after any number of insertions are exactly that
/// permutation, in its order.
pub proof fn lemma_insert_keeps_columns(m: StorageM, rec: Seq<Seq<char>>)
    ensures
        insert_spec(m, rec).0.columns == m.columns,
        insert_spec(m, rec).0.filters == m.filters,
{
}

/// Insertion keeps every retained record well formed.
pub proof fn lemma_insert_keeps_wf(m: StorageM, rec: Seq<Seq<char>>)
    requires
        store_wf(m),
    ensures
        store_wf(insert_spec(m, rec).0),
{
    let (m2, r) = insert_spec(m, rec);
    assert forall|i: int| 0 <= i < m2.projects.len() implies project_wf(
        #[trigger] m2.projects[i],
    ) by {
        if i < m.projects.len() {
            assert(project_wf(m.projects[i]));
        } else {
            let fields = reproject_spec(m.columns, rec)->Ok_0;
            let p = parse_record_spec(fields)->Ok_0;
            crate::project::lemma_parse_record_wf(fields);
        }
    }
}

/// The records of the store that carry one given start date, in order.
pub open spec fn same_date_records(s: Seq<Project>, d: StartDate) -> Seq<Project> {
    s.filter(|p: Project| p.start_date == d)
}

/// Ascending by start date.
pub open spec fn sorted_by_date(s: Seq<Project>) -> bool {
    forall|i: int, j: int|
        0 <= i < j < s.len() ==> date_le_spec(#[trigger] s[i].start_date, #[trigger] s[j].start_date)
}

proof fn lemma_filter_none_pass(s: Seq<Project>, pred: spec_fn(Project) -> bool)
    requires
        forall|i: int| 0 <= i < s.len() ==> !pred(#[trigger] s[i]),
    ensures
        s.filter(pred) =~= Seq::<Project>::empty(),
    decreases s.len(),
{
    reveal(Seq::filter);
    if s.len() > 0 {
        let d = s.drop_last();
        assert(forall|i: int| 0 <= i < d.len() ==> #[trigger] d[i] == s[i]);
        lemma_filter_none_pass(d, pred);
        assert(!pred(s.last()));
    }
}

proof fn lemma_filter_singleton(p: Project, pred: spec_fn(Project) -> bool)
    ensures
        seq![p].filter(pred) =~= if pred(p) {
            seq![p]
        } else {
            Seq::<Project>::empty()
        },
{
    reveal(Seq::filter);
    let s = seq![p];
    assert(s.drop_last() =~= Seq::<Project>::empty());
    assert(Seq::<Project>::empty().filter(pred) =~= Seq::<Project>::empty());
    assert(s.last() == p);
}

/// Moving a record backwards past records with strictly later dates keeps,
/// for every date, the subsequence of records carrying that date.
proof fn lemma_stable_move(s: Seq<Project>, i: int, pos: int)
    requires
        0 <= pos < i < s.len(),
        forall|j: int| pos <= j < i ==> !date_le_spec(#[trigger] s[j].start_date, s[i].start_date),
    ensures
        forall|d: StartDate|
            #[trigger] same_date_records(s.remove(i).insert(pos, s[i]), d) == same_date_records(
                s,
                d,
            ),
{
    broadcast use Seq::filter_distributes_over_add;

    let p = s[i];
    let a1 = s.subrange(0, pos);
    let a2 = s.subrange(pos, i);
    let b = s.subrange(i + 1, s.len() as int);
    let t = s.remove(i).insert(pos, p);
    assert(s =~= a1 + a2 + seq![p] + b);
    assert(t =~= a1 + seq![p] + a2 + b);
    assert forall|d: StartDate|
        #[trigger] same_date_records(t, d) == same_date_records(s, d) by {
        let pred = |q: Project| q.start_date == d;
        assert((a1 + a2 + seq![p] + b).filter(pred) == a1.filter(pred) + a2.filter(pred) + seq![
            p,
        ].filter(pred) + b.filter(pred));
        assert((a1 + seq![p] + a2 + b).filter(pred) == a1.filter(pred) + seq![p].filter(pred)
            + a2.filter(pred) + b.filter(pred));
        lemma_filter_singleton(p, pred);
        if p.start_date == d {
            assert forall|j: int| 0 <= j < a2.len() implies !pred(#[trigger] a2[j]) by {
                assert(a2[j] == s[j + pos]);
                assert(!date_le_spec(s[j + pos].start_date, p.start_date));
                if a2[j].start_date == d {
                    assert(date_le_spec(a2[j].start_date, p.start_date));
                }
            }
            lemma_filter_none_pass(a2, pred);
            assert(a2.filter(pred) + seq![p].filter(pred) =~= seq![p].filter(pred) + a2.filter(
                pred,
            ));
        } else {
            assert(a2.filter(pred) + seq![p].filter(pred) =~= seq![p].filter(pred) + a2.filter(
                pred,
            ));
        }
        assert(same_date_records(t, d) =~= same_date_records(s, d));
    }
}

impl Storage {
    /// A store with the canonical default column order, no records, and the
    /// given predicate chain.
    pub fn new(filters: Vec<Predicate>) -> (r: Storage)
        ensures
            r@.columns == column_names(),
            r@.projects == Seq::<ProjectV>::empty(),
            r@.filters == filters.deep_view(),
    {
        let mut columns: Vec<String> = Vec::new();
        let mut k: usize = 0;
        while k < 8
            invariant
                0 <= k <= 8,
                columns@.len() == k,
                forall|x: int| 0 <= x < k ==> (#[trigger] columns@[x])@ == column_names()[x],
            decreases 8 - k,
        {
            columns.push(column_name(k).to_owned());
            k = k + 1;
        }
        let r = Storage { columns, projects: Vec::new(), filters };
        proof {
            crate::text::lemma_vec_deep(r.columns);
            assert(r@.columns =~= column_names());
            crate::text::lemma_vec_deep(r.projects);
            assert(r@.projects =~= Seq::<ProjectV>::empty());
        }
        r
    }

    /// Replace the column mapping: each name maps to its position in the
    /// given row.
    pub fn set_columns(&mut self, record: Vec<&str>)
        ensures
            final(self)@.columns == record.deep_view(),
            final(self)@.projects == old(self)@.projects,
            final(self)@.filters == old(self)@.filters,
    {
        let mut cols: Vec<String> = Vec::new();
        let n = record.len();
        let mut i: usize = 0;
        while i < n
            invariant
                0 <= i <= n,
                n == record@.len(),
                cols@.len() == i,
                forall|x: int| 0 <= x < i ==> (#[trigger] cols@[x])@ == record@[x]@,
            decreases n - i,
        {
            cols.push(record[i].to_owned());
            i = i + 1;
        }
        self.columns = cols;
        proof {
            crate::text::lemma_vec_deep(self.columns);
            crate::text::lemma_vec_deep(record);
            assert(self@.columns =~= record.deep_view());
        }
    }

    /// The column names in their mapped order.
    pub fn get_columns(&self) -> (r: Vec<String>)
        ensures
            r.deep_view() == self@.columns,
    {
        let mut out: Vec<String> = Vec::new();
        let n = self.columns.len();
        let mut i: usize = 0;
        while i < n
            invariant
                0 <= i <= n,
                n == self.columns@.len(),
                out@.len() == i,
                forall|x: int| 0 <= x < i ==> (#[trigger] out@[x])@ == self.columns@[x]@,
            decreases n - i,
        {
            out.push(self.columns[i].clone());
            i = i + 1;
        }
        proof {
            crate::text::lemma_vec_deep(out);
            crate::text::lemma_vec_deep(self.columns);
            assert(out.deep_view() =~= self@.columns);
        }
        out
    }

    /// The mapped position of a canonical column name, searched from the
    /// most recent assignment.
    fn find_column(&self, name: &str) -> (r: Option<usize>)
        ensures
            match r {
                Some(j) => j < self@.columns.len() && last_index_of(self@.columns, name@)
                    == j as int,
                None => last_index_of(self@.columns, name@) == -1,
            },
    {
        proof {
            lemma_last_index_of(self@.columns, name@);
            crate::text::lemma_vec_deep(self.columns);
        }
        let n = self.columns.len();
        let mut i: usize = n;
        while i > 0
            invariant
                0 <= i <= n,
                n == self@.columns.len(),
                n == self.columns@.len(),
                forall|j: int| i <= j < n ==> #[trigger] self@.columns[j] != name@,
            decreases i,
        {
            i = i - 1;
            if str_eq(self.columns[i].as_str(), name) {
                proof {
                    lemma_last_index_of(self@.columns, name@);
                    crate::text::lemma_vec_deep(self.columns);
                    assert(self@.columns[i as int] == name@);
                    let lio = last_index_of(self@.columns, name@);
                    assert(lio == i as int) by {
                        if lio < i as int {
                            // the characterization forbids a later occurrence
                            assert(self@.columns[i as int] != name@);
                        }
                        if lio > i as int {
                            // the scan has already ruled these positions out
                            assert(self@.columns[lio] == name@);
                            assert(self@.columns[lio] != name@);
                        }
                    }
                }
                return Some(i);
            } else {
                proof {
                    crate::text::lemma_vec_deep(self.columns);
                    assert(self@.columns[i as int] != name@);
                }
            }
        }
        proof {
            lemma_last_index_of(self@.columns, name@);
            let lio = last_index_of(self@.columns, name@);
            if lio >= 0 {
                assert(self@.columns[lio] == name@);
                assert(self@.columns[lio] != name@);
            }
        }
        None
    }

    /// Insert one raw row: re-order it by the column mapping, parse it, and
    /// retain the record when every predicate passes. A row that fails is
    /// reported and changes nothing; a filtered-out row is no error.
    pub fn insert(&mut self, record: Vec<&str>) -> (r: Result<(), ParseError>)
        ensures
            ({
                let (m2, r2) = insert_spec(old(self)@, record.deep_view());
                &&& final(self)@ == m2
                &&& match r {
                    Ok(()) => r2 is Ok,
                    Err(e) => r2 == Err::<(), ErrV>(e@),
                }
            }),
            store_wf(old(self)@) ==> store_wf(final(self)@),
    {
        let ghost m = self@;
        let ghost rec = record.deep_view();
        proof {
            crate::text::lemma_vec_deep(record);
            assert(forall|i: int| 0 <= i < rec.len() ==> rec[i] == #[trigger] record@[i]@);
            lemma_first_bad_col(m.columns, rec, 0);
            if store_wf(m) {
                lemma_insert_keeps_wf(m, rec);
            }
        }
        let mut fields: Vec<&str> = Vec::new();
        let mut k: usize = 0;
        while k < 8
            invariant
                0 <= k <= 8,
                m == self@,
                m == old(self)@,
                rec == record.deep_view(),
                rec.len() == record@.len(),
                forall|i: int| 0 <= i < rec.len() ==> rec[i] == #[trigger] record@[i]@,
                fields@.len() == k,
                forall|x: int|
                    0 <= x < k ==> (#[trigger] fields@[x])@ == reprojected(m.columns, rec)[x],
                forall|j: int| 0 <= j < k ==> col_good(m.columns, rec, j),
            decreases 8 - k,
        {
            let name = column_name(k);
            let j = match self.find_column(name) {
                Some(j) => j,
                None => {
                    proof {
                        lemma_first_bad_col(m.columns, rec, 0);
                        assert(!col_good(m.columns, rec, k as int));
                        let bad = first_bad_col(m.columns, rec, 0);
                        assert(bad == k as int) by {
                            if bad < k as int {
                                assert(col_good(m.columns, rec, bad));
                                assert(!col_good(m.columns, rec, bad));
                            }
                            if bad > k as int {
                                assert(col_good(m.columns, rec, k as int));
                            }
                        }
                        assert(!reproject_ok(m.columns, rec));
                    }
                    return Err(ParseError::UnknownColumn(name.to_owned()));
                },
            };
            if j >= record.len() {
                proof {
                    lemma_first_bad_col(m.columns, rec, 0);
                    assert(!col_good(m.columns, rec, k as int));
                    let bad = first_bad_col(m.columns, rec, 0);
                    assert(bad == k as int) by {
                        if bad < k as int {
                            assert(col_good(m.columns, rec, bad));
                            assert(!col_good(m.columns, rec, bad));
                        }
                        if bad > k as int {
                            assert(col_good(m.columns, rec, k as int));
                        }
                    }
                    assert(!reproject_ok(m.columns, rec));
                }
                return Err(ParseError::WrongColumnCount);
            }
            fields.push(record[j]);
            proof {
                assert(col_good(m.columns, rec, k as int));
                assert(fields@[k as int]@ == reprojected(m.columns, rec)[k as int]);
            }
            k = k + 1;
        }
        proof {
            assert(reproject_ok(m.columns, rec));
            crate::text::lemma_vec_deep(fields);
            assert(fields.deep_view() =~= reprojected(m.columns, rec));
        }
        let p = match Project::new(fields) {
            Ok(p) => p,
            Err(e) => {
                return Err(e);
            },
        };
        let mut t: usize = 0;
        let nf = self.filters.len();
        while t < nf
            invariant
                0 <= t <= nf,
                m == self@,
                m == old(self)@,
                rec == record.deep_view(),
                nf == m.filters.len(),
                nf == self.filters@.len(),
                reproject_spec(m.columns, rec) is Ok,
                parse_record_spec(reproject_spec(m.columns, rec)->Ok_0) == Ok::<ProjectV, ErrV>(
                    p@,
                ),
                forall|i: int| 0 <= i < t ==> pred_passes(#[trigger] m.filters[i], p@),
            decreases nf - t,
        {
            if !self.filters[t].eval(&p) {
                proof {
                    crate::text::lemma_vec_deep(self.filters);
                    assert(m.filters[t as int] == self.filters@[t as int]@);
                    assert(!pred_passes(m.filters[t as int], p@));
                    assert(!all_pass(m.filters, p@));
                    assert(insert_spec(m, rec) == (m, Ok::<(), ErrV>(())));
                }
                return Ok(());
            } else {
                proof {
                    crate::text::lemma_vec_deep(self.filters);
                    assert(m.filters[t as int] == self.filters@[t as int]@);
                }
            }
            t = t + 1;
        }
        proof {
            assert(all_pass(m.filters, p@));
        }
        self.projects.push(p);
        proof {
            crate::text::lemma_vec_deep(self.projects);
            assert(self@.projects =~= m.projects.push(p@));
            assert(self@ == insert_spec(m, rec).0);
        }
        Ok(())
    }

    /// Sort the records ascending by start date; records with equal dates
    /// keep their relative order.
    pub fn sort_by_start_date(&mut self)
        ensures
            final(self)@.columns == old(self)@.columns,
            final(self)@.filters == old(self)@.filters,
            final(self).projects@.len() == old(self).projects@.len(),
            sorted_by_date(final(self).projects@),
            forall|d: StartDate|
                #[trigger] same_date_records(final(self).projects@, d) == same_date_records(
                    old(self).projects@,
                    d,
                ),
            store_wf(old(self)@) ==> store_wf(final(self)@),
    {
        let ghost orig = self.projects@;
        let n = self.projects.len();
        if n <= 1 {
            return ;
        }
        let mut i: usize = 1;
        while i < n
            invariant
                1 <= i <= n,
                n == self.projects@.len(),
                self.columns == old(self).columns,
                self.filters == old(self).filters,
                self.projects@.len() == orig.len(),
                orig == old(self).projects@,
                sorted_by_date(self.projects@.subrange(0, i as int)),
                forall|d: StartDate|
                    #[trigger] same_date_records(self.projects@, d) == same_date_records(orig, d),
                store_wf(old(self)@) ==> store_wf(self@),
            decreases n - i,
        {
            let di = self.projects[i].start_date;
            let mut pos: usize = 0;
            while pos < i && self.projects[pos].start_date.le(&di)
                invariant
                    0 <= pos <= i < n,
                    n == self.projects@.len(),
                    di == self.projects@[i as int].start_date,
                    forall|j: int|
                        0 <= j < pos ==> date_le_spec(
                            #[trigger] self.projects@[j].start_date,
                            di,
                        ),
                decreases i - pos,
            {
                pos = pos + 1;
            }
            if pos < i {
                let ghost s = self.projects@;
                proof {
                    assert forall|j: int|
                        pos <= j < i implies !date_le_spec(
                            #[trigger] s[j].start_date,
                            s[i as int].start_date,
                        ) by {
                        if j == pos {
                            assert(!date_le_spec(s[pos as int].start_date, di));
                        } else {
                            // the sorted prefix puts s[pos] no later than s[j]
                            assert(date_le_spec(
                                s.subrange(0, i as int)[pos as int].start_date,
                                s.subrange(0, i as int)[j].start_date,
                            ));
                            if date_le_spec(s[j].start_date, di) {
                                crate::date::lemma_date_le_trans(
                                    s[pos as int].start_date,
                                    s[j].start_date,
                                    di,
                                );
                            }
                        }
                    }
                    lemma_stable_move(s, i as int, pos as int);
                    crate::text::lemma_vec_deep(self.projects);
                    assert(forall|x: int|
                        0 <= x < s.len() ==> self@.projects[x] == #[trigger] s[x]@);
                }
                let p = self.projects.remove(i);
                self.projects.insert(pos, p);
                proof {
                    let t = self.projects@;
                    assert(t =~= s.remove(i as int).insert(pos as int, s[i as int]));
                    assert forall|a: int, b: int|
                        0 <= a < b < i + 1 implies date_le_spec(
                            #[trigger] t[a].start_date,
                            #[trigger] t[b].start_date,
                        ) by {
                        let olda = if a < pos {
                            a
                        } else if a == pos {
                            i as int
                        } else {
                            a - 1
                        };
                        let oldb = if b < pos {
                            b
                        } else if b == pos {
                            i as int
                        } else {
                            b - 1
                        };
                        assert(t[a] == s[olda]);
                        assert(t[b] == s[oldb]);
                        let pre = s.subrange(0, i as int);
                        if olda == i as int {
                            // a is the moved record; b follows it, so b maps
                            // into the strictly later block
                            assert(!date_le_spec(s[oldb].start_date, di));
                            crate::date::lemma_date_le_total(s[oldb].start_date, di);
                        } else if oldb == i as int {
                            assert(date_le_spec(s[olda].start_date, di));
                        } else {
                            assert(pre[olda] == s[olda]);
                            assert(pre[oldb] == s[oldb]);
                            if olda < oldb {
                                assert(date_le_spec(pre[olda].start_date, pre[oldb].start_date));
                            } else {
                                // a >= pos maps before b < pos cannot happen
                                assert(false);
                            }
                        }
                    }
                    assert(sorted_by_date(t.subrange(0, i + 1))) by {
                        assert(forall|a: int, b: int|
                            0 <= a < b < i + 1 ==> date_le_spec(
                                (#[trigger] t.subrange(0, i + 1)[a]).start_date,
                                (#[trigger] t.subrange(0, i + 1)[b]).start_date,
                            ));
                    }
                    crate::text::lemma_vec_deep(self.projects);
                    assert(forall|x: int|
                        0 <= x < t.len() ==> self@.projects[x] == #[trigger] t[x]@);
                    if store_wf(old(self)@) {
                        assert forall|idx: int| 0 <= idx < t.len() implies project_wf(
                            #[trigger] self@.projects[idx],
                        ) by {
                            let oldidx = if idx < pos {
                                idx
                            } else if idx == pos {
                                i as int
                            } else if idx <= i {
                                idx - 1
                            } else {
                                idx
                            };
                            assert(t[idx] == s[oldidx]);
                            assert(self@.projects[idx] == t[idx]@);
                        }
                    }
                }
            } else {
                proof {
                    let s = self.projects@;
                    assert forall|a: int, b: int|
                        0 <= a < b < i + 1 implies date_le_spec(
                            (#[trigger] s.subrange(0, i + 1)[a]).start_date,
                            (#[trigger] s.subrange(0, i + 1)[b]).start_date,
                        ) by {
                        if b < i as int {
                            assert(date_le_spec(
                                s.subrange(0, i as int)[a].start_date,
                                s.subrange(0, i as int)[b].start_date,
                            ));
                        } else {
                            assert(date_le_spec(s[a].start_date, di));
                        }
                    }
                }
            }
            i = i + 1;
        }
        proof {
            assert(self.projects@.subrange(0, n as int) =~= self.projects@);
        }
    }

    /// Whether every retained record is well formed.
    pub fn is_well_formed(&self) -> (r: bool)
        ensures
            r == store_wf(self@),
    {
        let n = self.projects.len();
        let mut i: usize = 0;
        while i < n
            invariant
                0 <= i <= n,
                n == self.projects@.len(),
                forall|x: int| 0 <= x < i ==> project_wf(#[trigger] self@.projects[x]),
            decreases n - i,
        {
            if !self.projects[i].is_well_formed() {
                proof {
                    crate::text::lemma_vec_deep(self.projects);
                    assert(!project_wf(self@.projects[i as int]));
                }
                return false;
            }
            proof {
                crate::text::lemma_vec_deep(self.projects);
                assert(project_wf(self@.projects[i as int]));
            }
            i = i + 1;
        }
        proof {
            crate::text::lemma_vec_deep(self.projects);
        }
        true
    }

    /// The retained records in current order.
    pub fn iter(&self) -> (r: &Vec<Project>)
        ensures
            r.deep_view() == self@.projects,
    {
        &self.projects
    }

    /// The count of retained records.
    pub fn size(&self) -> (r: usize)
        ensures
            r == self@.projects.len(),
    {
        self.projects.len()
    }

    /// Full reset: the mapping, the records and the predicate chain are all
    /// emptied.
    pub fn clear(&mut self)
        ensures
            final(self)@.columns.len() == 0,
            final(self)@.projects.len() == 0,
            final(self)@.filters.len() == 0,
    {
        self.columns.clear();
        self.projects.clear();
        self.filters.clear();
    }
}

} // verus!
