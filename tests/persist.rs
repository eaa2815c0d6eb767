use rushell_history::persist::{history_file_for, on_year_month, recent_history_files, recent_months, window_file_names};

#[test]
fn file_names() {
    assert_eq!(on_year_month(2024, 3), "s_history_2024_3.toml");
    assert_eq!(on_year_month(1999, 12), "s_history_1999_12.toml");
    assert_eq!(on_year_month(0, 1), "s_history_0_1.toml");
    assert_eq!(on_year_month(-5, 10), "s_history_-5_10.toml");
}

#[test]
fn month_window_rolls_over_year() {
    assert_eq!(recent_months(2024, 1, 2), vec![(2023, 12), (2024, 1)]);
    assert_eq!(recent_months(2024, 3, 3), vec![(2024, 1), (2024, 2), (2024, 3)]);
    assert_eq!(recent_months(2024, 5, 0), vec![]);
    let w = recent_months(2024, 2, 14);
    assert_eq!(w.len(), 14);
    assert_eq!(w[0], (2023, 1));
    assert_eq!(w[13], (2024, 2));
}

#[test]
fn history_files_for_now() {
    let now = 1_700_000_000u64; // November 2023
    let files = recent_history_files(now, 2);
    assert_eq!(files.len(), 2);
    assert_eq!(files[0], "s_history_2023_10.toml");
    assert_eq!(files[1], "s_history_2023_11.toml");
    assert_eq!(history_file_for(now), Some("s_history_2023_11.toml".to_string()));
    assert!(recent_history_files(now, 0).is_empty());
    assert!(recent_history_files(u64::MAX, 2).is_empty());
    assert_eq!(history_file_for(u64::MAX), None);
}


#[test]
fn window_file_names_roll_over_year() {
    assert_eq!(
        window_file_names(2024, 2, 3),
        vec!["s_history_2023_12.toml", "s_history_2024_1.toml", "s_history_2024_2.toml"]
    );
    assert_eq!(window_file_names(2024, 2, 1), vec!["s_history_2024_2.toml"]);
    assert!(window_file_names(2024, 2, 0).is_empty());
    assert_eq!(window_file_names(0, 1, 2), vec!["s_history_-1_12.toml", "s_history_0_1.toml"]);
    assert!(window_file_names(i32::MIN, 1, 2).is_empty());
    assert_eq!(window_file_names(i32::MIN, 2, 2).len(), 2);
}
