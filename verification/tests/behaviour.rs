use datebook::interp::Interp;

fn run(commands: &str) -> String {
    let mut interp = Interp::new();
    interp.run_text(commands)
}

#[test]
fn add_twice_stores_once() {
    let out = run("Add 2020-05-05 picnic\nAdd 2020-05-05 picnic\nPrint\n");
    assert_eq!(out, "2020-05-05 picnic\n");
}

#[test]
fn normalized_spellings_dedup_and_render_padded() {
    let out = run("Add 2017-1-1 X\nAdd 2017-01-01 X\nPrint\n");
    assert_eq!(out, "2017-01-01 X\n");
}

#[test]
fn print_sorts_by_date_then_event() {
    let out = run("Add 2020-02-02 b\nAdd 2020-01-05 z\nAdd 2020-02-02 a\nPrint\n");
    assert_eq!(out, "2020-01-05 z\n2020-02-02 a\n2020-02-02 b\n");
}

#[test]
fn find_on_empty_store_counts_zero() {
    let out = run("Find\n");
    assert_eq!(out, "Found 0 entries\n");
}

#[test]
fn print_on_empty_store_emits_nothing() {
    let out = run("Print\n");
    assert_eq!(out, "");
}

#[test]
fn last_on_empty_store_says_no_entries() {
    let out = run("Last 2018-03-08\n");
    assert_eq!(out, "No entries\n");
}

#[test]
fn del_on_empty_store_counts_zero() {
    let out = run("Del\n");
    assert_eq!(out, "Removed 0 entries\n");
}

#[test]
fn event_prefix_sorts_first() {
    let out = run("Add 2019-01-01 cc\nAdd 2019-01-01 c\nFind event < \"cc\"\n");
    assert_eq!(out, "2019-01-01 c\nFound 1 entries\n");
}

#[test]
fn last_prefers_latest_insertion_on_equal_dates() {
    let out = run("Add 2019-01-01 b\nAdd 2019-01-01 a\nLast 2019-01-01\n");
    assert_eq!(out, "2019-01-01 a\n");
}

#[test]
fn malformed_dates_discard_the_command() {
    let out = run("Add 2017-13 x\nAdd 2017-01-01-5 y\nAdd -1-1-1 z\nLast 2017\nPrint\n");
    assert_eq!(out, "");
}

#[test]
fn malformed_clauses_discard_the_command() {
    let commands = "Add 2017-01-01 x\n\
                    Del date ==\n\
                    Find event = \"x\"\n\
                    Find (date == 2017-01-01\n\
                    Find event == \"x\n\
                    Del colour == 2017-01-01\n\
                    Find date == 2017-01-01 event == \"x\"\n\
                    Print\n";
    let out = run(commands);
    assert_eq!(out, "2017-01-01 x\n");
}

#[test]
fn empty_event_is_ignored() {
    let out = run("Add 2018-03-08\nAdd 2018-03-08   \nPrint\nFind\n");
    assert_eq!(out, "Found 0 entries\n");
}

#[test]
fn and_binds_tighter_than_or() {
    let commands = "Add 2017-01-01 a\n\
                    Add 2017-01-02 b\n\
                    Find event == \"b\" OR date == 2017-01-01 AND event == \"a\"\n";
    let out = run(commands);
    assert_eq!(out, "2017-01-01 a\n2017-01-02 b\nFound 2 entries\n");
}

#[test]
fn whitespace_between_clause_tokens_is_insignificant() {
    let out = run("Add 2017-01-01 a\nFind date==2017-01-01\n");
    assert_eq!(out, "2017-01-01 a\nFound 1 entries\n");
}

#[test]
fn wide_years_render_unpadded() {
    let out = run("Add 12345-1-1 far\nAdd 0-12-31 old\nPrint\n");
    assert_eq!(out, "0000-12-31 old\n12345-01-01 far\n");
}

#[test]
fn unknown_keyword_is_ignored() {
    let out = run("Bogus 2017-01-01 x\nPrint\n");
    assert_eq!(out, "");
}

#[test]
fn date_comparisons_follow_calendar_order() {
    let commands = "Add 2017-01-31 a\n\
                    Add 2017-02-01 b\n\
                    Add 2016-12-31 c\n\
                    Find date > 2016-12-31 AND date <= 2017-02-01\n\
                    Find date != 2017-02-01\n";
    let out = run(commands);
    assert_eq!(
        out,
        "2017-01-31 a\n2017-02-01 b\nFound 2 entries\n2016-12-31 c\n2017-01-31 a\nFound 2 entries\n"
    );
}

#[test]
fn event_text_is_kept_verbatim_after_the_separator() {
    let out = run("Add 2017-01-01   two  spaces \nPrint\n");
    assert_eq!(out, "2017-01-01 two  spaces \n");
}

#[test]
fn removed_count_is_exact() {
    let commands = "Add 2017-01-01 a\nAdd 2017-01-02 b\nAdd 2017-01-03 c\n\
                    Del date < 2017-01-03\nPrint\n";
    let out = run(commands);
    assert_eq!(out, "Removed 2 entries\n2017-01-03 c\n");
}
