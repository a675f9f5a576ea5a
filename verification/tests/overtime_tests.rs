use overtime::cli::{dispatch, Command, CommandError, Cli};
use overtime::codec::CodecError;
use overtime::dates::{parse_date, Date, DateError};
use overtime::duration::{parse_time, TimeError};
use overtime::store::{OvertimeData, OvertimeEntry, StoreError};

fn date(year: u32, month: u32, day: u32) -> Date {
    Date { year, month, day }
}

fn store_with(entries: Vec<OvertimeEntry>) -> OvertimeData {
    OvertimeData { entries }
}

#[test]
fn duration_hours_and_minutes() {
    assert_eq!(parse_time("1h30m"), Ok(90));
    assert_eq!(parse_time("90"), Ok(90));
    assert_eq!(parse_time("2h"), Ok(120));
    assert_eq!(parse_time("45m"), Ok(45));
}

#[test]
fn duration_order_and_case() {
    assert_eq!(parse_time("30m1h"), Ok(90));
    assert_eq!(parse_time("1H30M"), Ok(90));
    assert_eq!(parse_time("1h30"), Ok(90));
}

#[test]
fn duration_rejects_bad_tokens() {
    assert_eq!(parse_time(""), Err(TimeError::Empty));
    assert_eq!(parse_time("h30"), Err(TimeError::MissingNumber { unit: 'h' }));
    assert_eq!(parse_time("30x"), Err(TimeError::InvalidCharacter { found: 'x' }));
    assert_eq!(parse_time("0h0m"), Err(TimeError::Zero));
    assert_eq!(parse_time("m"), Err(TimeError::MissingNumber { unit: 'm' }));
}

#[test]
fn duration_overflow() {
    assert_eq!(parse_time("2147483647"), Ok(i32::MAX));
    assert_eq!(parse_time("2147483648"), Err(TimeError::Overflow));
    assert_eq!(parse_time("99999999999999999999h"), Err(TimeError::Overflow));
}

#[test]
fn date_both_forms_agree() {
    let d = date(2024, 12, 25);
    assert_eq!(parse_date("25122024"), Ok(d));
    assert_eq!(parse_date("25.12.2024"), Ok(d));
}

#[test]
fn date_rejects_invalid_components() {
    assert_eq!(parse_date("31022024"), Err(DateError::InvalidComponents));
    assert_eq!(parse_date("25132024"), Err(DateError::InvalidComponents));
    assert_eq!(parse_date("00122024"), Err(DateError::InvalidComponents));
}

#[test]
fn date_rejects_bad_shapes() {
    assert_eq!(parse_date(""), Err(DateError::BadFormat));
    assert_eq!(parse_date("1.2.2024"), Err(DateError::BadDay));
    assert_eq!(parse_date("25-12-2024"), Err(DateError::BadFormat));
    assert_eq!(parse_date("2a122024"), Err(DateError::BadDay));
    assert_eq!(parse_date("25a22024"), Err(DateError::BadMonth));
    assert_eq!(parse_date("2512202a"), Err(DateError::BadYear));
}

#[test]
fn date_leap_years() {
    assert!(parse_date("29022024").is_ok());
    assert_eq!(parse_date("29022023"), Err(DateError::InvalidComponents));
    assert!(parse_date("29022000").is_ok());
    assert_eq!(parse_date("29021900"), Err(DateError::InvalidComponents));
}

#[test]
fn add_twice_merges_into_one_entry() {
    let mut data = OvertimeData::default();
    let d = date(2024, 12, 25);
    data.add_overtime(d, 90).unwrap();
    data.add_overtime(d, 30).unwrap();
    assert_eq!(data.entries.len(), 1);
    assert_eq!(data.entries[0].date, d);
    assert_eq!(data.entries[0].minutes, 120);
}

#[test]
fn remove_without_entry_fails_and_changes_nothing() {
    let mut data = store_with(vec![OvertimeEntry { date: date(2024, 12, 25), minutes: 30 }]);
    let r = data.remove_overtime(date(2024, 12, 26), 10);
    assert_eq!(r, Err(StoreError::NotFound));
    assert_eq!(data.entries.len(), 1);
    assert_eq!(data.entries[0].minutes, 30);

    let mut empty = OvertimeData::default();
    assert_eq!(empty.remove_overtime(date(2024, 12, 26), 10), Err(StoreError::NotFound));
    assert_eq!(empty.entries.len(), 0);
}

#[test]
fn remove_below_zero_keeps_negative_balance() {
    let mut data = OvertimeData::default();
    let d = date(2024, 12, 25);
    data.add_overtime(d, 30).unwrap();
    data.remove_overtime(d, 50).unwrap();
    assert_eq!(data.entries.len(), 1);
    assert_eq!(data.entries[0].minutes, -20);
}

#[test]
fn list_empty_store() {
    let data = OvertimeData::default();
    let lines = data.list_overtime();
    assert_eq!(lines, vec!["No overtime entries found.".to_string()]);
}

#[test]
fn list_one_entry() {
    let data = store_with(vec![OvertimeEntry { date: date(2024, 12, 25), minutes: 90 }]);
    let lines = data.list_overtime();
    let expected = vec![
        "".to_string(),
        "2024-12:".to_string(),
        "Date       | Overtime".to_string(),
        "-----------+---------".to_string(),
        "25.12.2024 |  1h 30m".to_string(),
        "".to_string(),
        "Total overtime: 1 hours and 30 minutes".to_string(),
    ];
    assert_eq!(lines, expected);
}

#[test]
fn list_sorts_and_groups_by_month() {
    let data = store_with(vec![
        OvertimeEntry { date: date(2025, 1, 2), minutes: 30 },
        OvertimeEntry { date: date(2024, 12, 25), minutes: 90 },
        OvertimeEntry { date: date(2024, 12, 5), minutes: -60 },
    ]);
    let lines = data.list_overtime();
    let expected = vec![
        "".to_string(),
        "2024-12:".to_string(),
        "Date       | Overtime".to_string(),
        "-----------+---------".to_string(),
        "05.12.2024 | -1h 0m".to_string(),
        "25.12.2024 |  1h 30m".to_string(),
        "".to_string(),
        "2025-1:".to_string(),
        "Date       | Overtime".to_string(),
        "-----------+---------".to_string(),
        "02.01.2025 |  0h 30m".to_string(),
        "".to_string(),
        "Total overtime: 1 hours and 0 minutes".to_string(),
    ];
    assert_eq!(lines, expected);
}

#[test]
fn list_total_carries_sign_and_split() {
    let mut data = OvertimeData::default();
    let d = date(2024, 12, 25);
    data.add_overtime(d, 30).unwrap();
    data.remove_overtime(d, 80).unwrap();
    let lines = data.list_overtime();
    assert_eq!(lines.last().unwrap().as_str(), "Total overtime: -0 hours and 50 minutes");
}

#[test]
fn json_round_trip() {
    let data = store_with(vec![
        OvertimeEntry { date: date(2024, 12, 25), minutes: 90 },
        OvertimeEntry { date: date(2025, 1, 2), minutes: -20 },
    ]);
    let text = data.to_json();
    let back = OvertimeData::from_json(&text).unwrap();
    assert_eq!(back.entries, data.entries);
}

#[test]
fn json_encoding_shape() {
    let data = store_with(vec![OvertimeEntry { date: date(2024, 12, 25), minutes: -5 }]);
    assert_eq!(data.to_json(), "{\"entries\":[{\"date\":\"2024-12-25\",\"minutes\":-5}]}");
    assert_eq!(OvertimeData::default().to_json(), "{\"entries\":[]}");
}

#[test]
fn json_reads_blank_as_empty() {
    assert_eq!(OvertimeData::from_json("").unwrap().entries.len(), 0);
    assert_eq!(OvertimeData::from_json("  \n\t ").unwrap().entries.len(), 0);
    assert_eq!(OvertimeData::from_json("{\"entries\":[]}").unwrap().entries.len(), 0);
}

#[test]
fn json_reads_spaced_text() {
    let text = "{\n  \"entries\": [\n    {\n      \"date\": \"2024-02-29\",\n      \"minutes\": 45\n    },\n    {\n      \"date\": \"2023-01-01\",\n      \"minutes\": -7\n    }\n  ]\n}\n";
    let data = OvertimeData::from_json(text).unwrap();
    assert_eq!(data.entries.len(), 2);
    assert_eq!(data.entries[0], OvertimeEntry { date: date(2024, 2, 29), minutes: 45 });
    assert_eq!(data.entries[1], OvertimeEntry { date: date(2023, 1, 1), minutes: -7 });
}

#[test]
fn json_rejects_malformed_text() {
    assert_eq!(OvertimeData::from_json("garbage").unwrap_err(), CodecError::Malformed);
    assert_eq!(OvertimeData::from_json("{\"entries\":[").unwrap_err(), CodecError::Malformed);
    assert_eq!(
        OvertimeData::from_json("{\"entries\":[{\"date\":\"2024-13-01\",\"minutes\":5}]}")
            .unwrap_err(),
        CodecError::Malformed
    );
    assert_eq!(
        OvertimeData::from_json("{\"entries\":[{\"date\":\"2024-12-25\",\"minutes\":5}]}extra")
            .unwrap_err(),
        CodecError::Malformed
    );
    assert_eq!(
        OvertimeData::from_json(
            "{\"entries\":[{\"date\":\"2024-12-25\",\"minutes\":2147483648}]}"
        )
        .unwrap_err(),
        CodecError::Malformed
    );
}

#[test]
fn json_rejects_duplicate_dates() {
    let text = "{\"entries\":[{\"date\":\"2024-12-25\",\"minutes\":5},{\"date\":\"2024-12-25\",\"minutes\":6}]}";
    assert_eq!(OvertimeData::from_json(text).unwrap_err(), CodecError::DuplicateDate);
}

#[test]
fn dispatch_add_reports_and_saves() {
    let mut data = OvertimeData::default();
    let cli = Cli {
        command: Command::Add { time: "1h30m".to_string(), date: "25.12.2024".to_string() },
    };
    let out = dispatch(&mut data, &cli.command).unwrap();
    assert!(out.save_needed);
    assert_eq!(out.lines, vec!["Added 90 minutes of overtime for 25.12.2024".to_string()]);
    assert_eq!(data.entries.len(), 1);
    assert_eq!(data.entries[0].minutes, 90);
}

#[test]
fn dispatch_remove_reports_and_saves() {
    let mut data = store_with(vec![OvertimeEntry { date: date(2024, 12, 25), minutes: 90 }]);
    let cmd = Command::Remove { time: "30m".to_string(), date: "25122024".to_string() };
    let out = dispatch(&mut data, &cmd).unwrap();
    assert!(out.save_needed);
    assert_eq!(out.lines, vec!["Removed 30 minutes of overtime for 25.12.2024".to_string()]);
    assert_eq!(data.entries[0].minutes, 60);
}

#[test]
fn dispatch_errors_leave_store_unchanged() {
    let mut data = store_with(vec![OvertimeEntry { date: date(2024, 12, 25), minutes: 90 }]);
    let bad_time = Command::Add { time: "0h".to_string(), date: "25.12.2024".to_string() };
    assert_eq!(dispatch(&mut data, &bad_time).unwrap_err(), CommandError::Time(TimeError::Zero));
    let bad_date = Command::Add { time: "30m".to_string(), date: "2024-12-25".to_string() };
    assert_eq!(dispatch(&mut data, &bad_date).unwrap_err(), CommandError::Date(DateError::BadFormat));
    let missing = Command::Remove { time: "30m".to_string(), date: "26.12.2024".to_string() };
    assert_eq!(dispatch(&mut data, &missing).unwrap_err(), CommandError::Store(StoreError::NotFound));
    assert_eq!(data.entries.len(), 1);
    assert_eq!(data.entries[0].minutes, 90);
}

#[test]
fn dispatch_list_leaves_store_alone() {
    let mut data = store_with(vec![OvertimeEntry { date: date(2024, 12, 25), minutes: 90 }]);
    let out = dispatch(&mut data, &Command::List).unwrap();
    assert!(!out.save_needed);
    assert_eq!(out.lines, data.list_overtime());
    assert_eq!(data.entries.len(), 1);
}

#[test]
fn store_wf_checker() {
    assert!(OvertimeData::default().is_wf());
    let dup = store_with(vec![
        OvertimeEntry { date: date(2024, 12, 25), minutes: 1 },
        OvertimeEntry { date: date(2024, 12, 25), minutes: 2 },
    ]);
    assert!(!dup.is_wf());
    let bad = store_with(vec![OvertimeEntry { date: date(2024, 13, 1), minutes: 1 }]);
    assert!(!bad.is_wf());
}
