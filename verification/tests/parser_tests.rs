use sad::parser::{parse_tsv, write_tsv, LineError};
use sad::project::ParseError;
use sad::storage::{Predicate, Storage};

fn lines_of(text: &str) -> Vec<String> {
    text.lines().map(|l| l.to_string()).collect()
}

#[test]
fn test_parse_tsv() {
    struct Data(&'static str, usize);

    let cases = vec![
        Data(
            "# Input file contents are between the two lines marked with stars\nProject\tDescription\tStart date\tCategory\tResponsible\tSavings amount\tCurrency\tComplexity\n1\tHarmonize Lactobacillus acidophilus sourcing\t2014-01-01 00:00:00.000\tDairy\tDaisy Milks\tNULL\tNULL\tSimple",
            1,
        ),
        Data(
            "Project\tDescription\tStart date\tCategory\tResponsible\tSavings amount\tCurrency\tComplexity\n# comment line\n\n1\tHarmonize Lactobacillus acidophilus sourcing\t2014-01-01 00:00:00.000\tDairy\tDaisy Milks\tNULL\tNULL\tSimple\n2\tSubstitute Crème fraîche with evaporated milk in ice-cream products\t2013-01-01 00:00:00.000\tDairy\tDaisy Milks\t141415.942696\tEUR\tModerate",
            2,
        ),
        Data(
            "Complexity\tProject\tDescription\tStart date\tCategory\tResponsible\tSavings amount\tCurrency\nSimple\t1\tHarmonize Lactobacillus acidophilus sourcing\t2014-01-01 00:00:00.000\tDairy\tDaisy Milks\tNULL\tNULL\nModerate\t2\tSubstitute Crème fraîche with evaporated milk in ice-cream products\t2013-01-01 00:00:00.000\tDairy\tDaisy Milks\t141415.942696\tEUR",
            2,
        ),
    ];
    let mut storage: Storage = Storage::new(vec![Predicate::KeepAll]);

    for Data(input, expected) in cases {
        parse_tsv(&lines_of(input), &mut storage).unwrap();

        assert_eq!(storage.size(), expected);

        storage.clear();
    }
}

#[test]
fn test_write_tsv() {
    // column, projects, output
    struct Data(Vec<&'static str>, Vec<Vec<&'static str>>, &'static str);

    let cases = vec![
        Data(
            vec![
                "Project",
                "Description",
                "Start date",
                "Category",
                "Responsible",
                "Savings amount",
                "Currency",
                "Complexity",
            ],
            vec![
                vec![
                    "1",
                    "Harmonize Lactobacillus acidophilus sourcing",
                    "2014-01-01 00:00:00.000",
                    "Dairy",
                    "Daisy Milks",
                    "NULL",
                    "NULL",
                    "Simple",
                ],
                vec![
                    "2",
                    "Substitute Crème fraîche with evaporated milk in ice-cream products",
                    "2013-01-01 00:00:00.000",
                    "Dairy",
                    "Daisy Milks",
                    "141415.942696",
                    "EUR",
                    "Moderate",
                ],
            ],
            "Project\tDescription\tStart date\tCategory\tResponsible\tSavings amount\tCurrency\tComplexity\n1\tHarmonize Lactobacillus acidophilus sourcing\t2014-01-01 00:00:00.000\tDairy\tDaisy Milks\t\t\tSimple\n2\tSubstitute Crème fraîche with evaporated milk in ice-cream products\t2013-01-01 00:00:00.000\tDairy\tDaisy Milks\t141415.942696\tEUR\tModerate\n",
        ),
        Data(
            vec![
                "Complexity",
                "Project",
                "Description",
                "Start date",
                "Category",
                "Responsible",
                "Savings amount",
                "Currency",
            ],
            vec![
                vec![
                    "Simple",
                    "1",
                    "Harmonize Lactobacillus acidophilus sourcing",
                    "2014-01-01 00:00:00.000",
                    "Dairy",
                    "Daisy Milks",
                    "NULL",
                    "NULL",
                ],
                vec![
                    "Moderate",
                    "2",
                    "Substitute Crème fraîche with evaporated milk in ice-cream products",
                    "2013-01-01 00:00:00.000",
                    "Dairy",
                    "Daisy Milks",
                    "141415.942696",
                    "EUR",
                ],
            ],
            "Complexity\tProject\tDescription\tStart date\tCategory\tResponsible\tSavings amount\tCurrency\nSimple\t1\tHarmonize Lactobacillus acidophilus sourcing\t2014-01-01 00:00:00.000\tDairy\tDaisy Milks\t\t\nModerate\t2\tSubstitute Crème fraîche with evaporated milk in ice-cream products\t2013-01-01 00:00:00.000\tDairy\tDaisy Milks\t141415.942696\tEUR\n",
        ),
    ];
    let mut storage: Storage = Storage::new(vec![Predicate::KeepAll]);

    for Data(columns, records, expected) in cases {
        storage.set_columns(columns);
        for rec in records.iter() {
            storage.insert(rec.to_vec()).unwrap();
        }

        let buf = write_tsv(&storage);

        assert_eq!(buf, expected);

        storage.clear();
    }
}

#[test]
fn one_retained_project_from_canonical_header() {
    let input = "Project\tDescription\tStart date\tCategory\tResponsible\tSavings amount\tCurrency\tComplexity\n1\tHarmonize Lactobacillus acidophilus sourcing\t2014-01-01 00:00:00.000\tDairy\tDaisy Milks\tNULL\tNULL\tSimple";
    let mut storage = Storage::new(vec![Predicate::KeepAll]);
    parse_tsv(&lines_of(input), &mut storage).unwrap();
    assert_eq!(storage.size(), 1);
    let p = &storage.iter()[0];
    assert_eq!(p.id, "1");
    assert_eq!(p.savings_amount, None);
    assert_eq!(p.currency, None);
    assert_eq!(p.complexity, sad::project::Complexity::Simple);
}

#[test]
fn sorted_output_after_parse() {
    let input = "Project\tDescription\tStart date\tCategory\tResponsible\tSavings amount\tCurrency\tComplexity\n1\ta\t2014-01-01 00:00:00.000\tc\tr\tNULL\tNULL\tSimple\n2\tb\t2013-01-01 00:00:00.000\tc\tr\tNULL\tNULL\tSimple";
    let mut storage = Storage::new(vec![Predicate::KeepAll]);
    parse_tsv(&lines_of(input), &mut storage).unwrap();
    storage.sort_by_start_date();
    let ids: Vec<&str> = storage.iter().iter().map(|p| p.id.as_ref()).collect();
    assert_eq!(ids, vec!["2", "1"]);
}

#[test]
fn first_bad_row_stops_the_run_with_its_line() {
    let input = "Project\tDescription\tStart date\tCategory\tResponsible\tSavings amount\tCurrency\tComplexity\n# note\n1\ta\t2014-01-01 00:00:00.000\tc\tr\tNULL\tUSD\tSimple";
    let mut storage = Storage::new(vec![Predicate::KeepAll]);
    let err: LineError = parse_tsv(&lines_of(input), &mut storage).unwrap_err();
    assert_eq!(err.line, 3);
    assert!(matches!(err.error, ParseError::BadCurrency(ref t) if t == "USD"));
    assert_eq!(err.message(), "on line: 3, parse error: currency parse error USD");
    assert_eq!(storage.size(), 0);
}

#[test]
fn whitespace_only_lines_are_skipped() {
    // a line of spaces, and one of a lone tab, count as blank
    let input = "   \nProject\tDescription\tStart date\tCategory\tResponsible\tSavings amount\tCurrency\tComplexity\n\t\n  # an indented comment\n1\ta\t2014-01-01 00:00:00.000\tc\tr\tNULL\tNULL\tSimple";
    let mut storage = Storage::new(vec![Predicate::KeepAll]);
    parse_tsv(&lines_of(input), &mut storage).unwrap();
    assert_eq!(storage.size(), 1);
    assert_eq!(storage.iter()[0].id, "1");
}

#[test]
fn fields_are_trimmed_around_tabs() {
    let input = "Project\tDescription\tStart date\tCategory\tResponsible\tSavings amount\tCurrency\tComplexity\n 1 \t a \t 2014-01-01 00:00:00.000 \tc\tr\tNULL\tNULL\t Simple ";
    let mut storage = Storage::new(vec![Predicate::KeepAll]);
    parse_tsv(&lines_of(input), &mut storage).unwrap();
    assert_eq!(storage.size(), 1);
    assert_eq!(storage.iter()[0].id, "1");
    assert_eq!(storage.iter()[0].description, "a");
}
