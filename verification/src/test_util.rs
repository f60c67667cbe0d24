//! Shared example data: two raw rows and the records they parse into, used
//! by the tests and usable by callers exploring the library.

use vstd::prelude::*;

use crate::date::StartDate;
use crate::project::{column_name, column_names, Complexity, Currency, Money, Project, ProjectV};

verus! {

/// The raw fields of the two example rows, in canonical order.
pub open spec fn record_fixture(id: int) -> Seq<Seq<char>> {
    if id == 1 {
        seq![
            "1"@,
            "Harmonize Lactobacillus acidophilus sourcing"@,
            "2014-01-01 00:00:00.000"@,
            "Dairy"@,
            "Daisy Milks"@,
            "NULL"@,
            "NULL"@,
            "Simple"@,
        ]
    } else {
        seq![
            "2"@,
            "Substitute Crème fraîche with evaporated milk in ice-cream products"@,
            "2013-01-01 00:00:00.000"@,
            "Dairy"@,
            "Daisy Milks"@,
            "141415.942696"@,
            "EUR"@,
            "Moderate"@,
        ]
    }
}

/// The two example records.
pub open spec fn project_fixture(id: int) -> ProjectV {
    if id == 1 {
        ProjectV {
            id: "1"@,
            description: "Harmonize Lactobacillus acidophilus sourcing"@,
            start_date: StartDate {
                year: 2014,
                month: 1,
                day: 1,
                hour: 0,
                minute: 0,
                second: 0,
                millisecond: 0,
            },
            category: "Dairy"@,
            responsible: "Daisy Milks"@,
            savings_amount: None,
            currency: None,
            complexity: Complexity::Simple,
        }
    } else {
        ProjectV {
            id: "2"@,
            description: "Substitute Crème fraîche with evaporated milk in ice-cream products"@,
            start_date: StartDate {
                year: 2013,
                month: 1,
                day: 1,
                hour: 0,
                minute: 0,
                second: 0,
                millisecond: 0,
            },
            category: "Dairy"@,
            responsible: "Daisy Milks"@,
            savings_amount: Some(141415942696int),
            currency: Some(Currency::EUR),
            complexity: Complexity::Moderate,
        }
    }
}

/// The canonical field texts of the two example records; absent optional
/// fields render empty.
pub open spec fn dic_fixture(id: int) -> Seq<Seq<char>> {
    if id == 1 {
        seq![
            "1"@,
            "Harmonize Lactobacillus acidophilus sourcing"@,
            "2014-01-01 00:00:00.000"@,
            "Dairy"@,
            "Daisy Milks"@,
            ""@,
            ""@,
            "Simple"@,
        ]
    } else {
        seq![
            "2"@,
            "Substitute Crème fraîche with evaporated milk in ice-cream products"@,
            "2013-01-01 00:00:00.000"@,
            "Dairy"@,
            "Daisy Milks"@,
            "141415.942696"@,
            "EUR"@,
            "Moderate"@,
        ]
    }
}

/// The raw fields of one example row.
pub fn get_record(id: usize) -> (r: Vec<&'static str>)
    requires
        1 <= id <= 2,
    ensures
        r.deep_view() == record_fixture(id as int),
{
    let r: Vec<&'static str> = if id == 1 {
        vec![
            "1",
            "Harmonize Lactobacillus acidophilus sourcing",
            "2014-01-01 00:00:00.000",
            "Dairy",
            "Daisy Milks",
            "NULL",
            "NULL",
            "Simple",
        ]
    } else {
        vec![
            "2",
            "Substitute Crème fraîche with evaporated milk in ice-cream products",
            "2013-01-01 00:00:00.000",
            "Dairy",
            "Daisy Milks",
            "141415.942696",
            "EUR",
            "Moderate",
        ]
    };
    proof {
        crate::text::lemma_vec_deep(r);
        assert(r.deep_view() =~= record_fixture(id as int));
    }
    r
}

/// One example record.
pub fn get_project(id: usize) -> (r: Project)
    requires
        1 <= id <= 2,
    ensures
        r@ == project_fixture(id as int),
        crate::project::project_wf(r@),
{
    if id == 1 {
        Project {
            id: "1".to_owned(),
            description: "Harmonize Lactobacillus acidophilus sourcing".to_owned(),
            start_date: StartDate {
                year: 2014,
                month: 1,
                day: 1,
                hour: 0,
                minute: 0,
                second: 0,
                millisecond: 0,
            },
            category: "Dairy".to_owned(),
            responsible: "Daisy Milks".to_owned(),
            savings_amount: None,
            currency: None,
            complexity: Complexity::Simple,
        }
    } else {
        Project {
            id: "2".to_owned(),
            description: "Substitute Crème fraîche with evaporated milk in ice-cream products"
                .to_owned(),
            start_date: StartDate {
                year: 2013,
                month: 1,
                day: 1,
                hour: 0,
                minute: 0,
                second: 0,
                millisecond: 0,
            },
            category: "Dairy".to_owned(),
            responsible: "Daisy Milks".to_owned(),
            savings_amount: Some(Money::new(141415942696i64)),
            currency: Some(Currency::EUR),
            complexity: Complexity::Moderate,
        }
    }
}

/// One example record as pairs of canonical column name and canonical
/// field text.
pub fn get_project_as_dic(id: usize) -> (r: Vec<(String, String)>)
    requires
        1 <= id <= 2,
    ensures
        r@.len() == 8,
        forall|k: int|
            0 <= k < 8 ==> (#[trigger] r@[k]).0@ == column_names()[k] && r@[k].1@ == dic_fixture(
                id as int,
            )[k],
{
    let vals: Vec<&'static str> = if id == 1 {
        vec![
            "1",
            "Harmonize Lactobacillus acidophilus sourcing",
            "2014-01-01 00:00:00.000",
            "Dairy",
            "Daisy Milks",
            "",
            "",
            "Simple",
        ]
    } else {
        vec![
            "2",
            "Substitute Crème fraîche with evaporated milk in ice-cream products",
            "2013-01-01 00:00:00.000",
            "Dairy",
            "Daisy Milks",
            "141415.942696",
            "EUR",
            "Moderate",
        ]
    };
    proof {
        assert(forall|k: int| 0 <= k < 8 ==> vals@[k]@ == #[trigger] dic_fixture(id as int)[k]);
    }
    let mut out: Vec<(String, String)> = Vec::new();
    let mut k: usize = 0;
    while k < 8
        invariant
            0 <= k <= 8,
            vals@.len() == 8,
            forall|x: int| 0 <= x < 8 ==> vals@[x]@ == #[trigger] dic_fixture(id as int)[x],
            out@.len() == k,
            forall|j: int|
                0 <= j < k ==> (#[trigger] out@[j]).0@ == column_names()[j] && out@[j].1@
                    == dic_fixture(id as int)[j],
        decreases 8 - k,
    {
        out.push((column_name(k).to_owned(), vals[k].to_owned()));
        k = k + 1;
    }
    out
}

} // verus!
