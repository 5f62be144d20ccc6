use std::cmp::Ordering;
use window_enumerator::text::{compare_text, contains_substring, trim};
use window_enumerator::{
    matches_criteria, parse_selection, FilterCriteria, PositionSort, Selection, SortCriteria,
    WindowEnumerator, WindowError, WindowInfo, WindowPosition, WindowProbe, WindowSorter,
};

fn probe(hwnd: isize, title: &str, pid: u32) -> WindowProbe {
    WindowProbe {
        hwnd,
        title: title.to_string(),
        class_name: String::from("Frame"),
        pid,
        process: Some((format!("p{}.exe", pid), format!("C:\\bin\\p{}.exe", pid))),
        position: Some(WindowPosition { x: 0, y: 0, width: 10, height: 10 }),
    }
}

fn snapshot(probes: Vec<WindowProbe>) -> WindowEnumerator {
    let mut e = WindowEnumerator::new();
    assert_eq!(e.enumerate_all_windows(Ok(probes)), Ok(()));
    e
}

fn window(index: usize, pid: u32, title: &str, x: i32, y: i32) -> WindowInfo {
    WindowInfo {
        hwnd: index as isize * 16,
        pid,
        title: title.to_string(),
        class_name: String::new(),
        process_name: String::new(),
        process_file: String::new(),
        index,
        position: WindowPosition { x, y, width: 1, height: 1 },
    }
}

fn indices_of(ws: &[WindowInfo]) -> Vec<usize> {
    ws.iter().map(|w| w.index).collect()
}

fn three_titles() -> WindowEnumerator {
    snapshot(vec![
        probe(100, "Notepad", 1),
        probe(200, "chrome - tab", 2),
        probe(300, "Calculator", 3),
    ])
}

fn no_filter() -> FilterCriteria {
    FilterCriteria::default()
}

fn title_filter(t: &str) -> FilterCriteria {
    FilterCriteria { title_contains: Some(t.to_string()), ..FilterCriteria::default() }
}

#[test]
fn snapshot_indices_are_contiguous() {
    let e = snapshot(vec![probe(7, "a", 1), probe(3, "b", 2), probe(9, "c", 3)]);
    assert_eq!(indices_of(e.get_windows()), vec![1, 2, 3]);
    assert_eq!(e.get_windows()[1].hwnd, 3);
}

#[test]
fn snapshot_indices_survive_queries() {
    let e = three_titles();
    let sort = SortCriteria { pid: -1, title: 0, position: None };
    let r = e.filter_and_sort_windows(&no_filter(), &sort);
    assert_eq!(indices_of(&r), vec![3, 2, 1]);
    for w in &r {
        assert_eq!(e.get_window_by_index(w.index).unwrap().title, w.title);
    }
    assert_eq!(indices_of(e.get_windows()), vec![1, 2, 3]);
}

#[test]
fn failed_enumeration_clears_snapshot() {
    let mut e = three_titles();
    assert_eq!(e.enumerate_all_windows(Err(5)), Err(WindowError::WindowsApiError(5)));
    assert!(e.get_windows().is_empty());
}

#[test]
fn rebuild_replaces_snapshot() {
    let mut e = three_titles();
    assert_eq!(e.enumerate_all_windows(Ok(vec![probe(1, "only", 4)])), Ok(()));
    assert_eq!(e.get_windows().len(), 1);
    assert_eq!(e.get_windows()[0].index, 1);
    assert_eq!(e.get_windows()[0].title, "only");
}

#[test]
fn probe_defaults() {
    let unknown = WindowProbe {
        hwnd: 5,
        title: String::new(),
        class_name: String::new(),
        pid: 0,
        process: Some((String::from("x.exe"), String::from("C:\\x.exe"))),
        position: None,
    };
    let denied = WindowProbe { pid: 8, process: None, ..probe(6, "t", 8) };
    let e = snapshot(vec![unknown, denied]);
    let ws = e.get_windows();
    assert_eq!(ws.len(), 2);
    assert_eq!(ws[0].process_name, "");
    assert_eq!(ws[0].process_file, "");
    assert_eq!(ws[0].position, WindowPosition { x: 0, y: 0, width: 0, height: 0 });
    assert_eq!(ws[1].pid, 8);
    assert_eq!(ws[1].process_name, "");
    assert_eq!(ws[1].position.width, 10);
}

#[test]
fn probe_keeps_process_metadata() {
    let e = snapshot(vec![probe(1, "t", 42)]);
    assert_eq!(e.get_windows()[0].process_name, "p42.exe");
    assert_eq!(e.get_windows()[0].process_file, "C:\\bin\\p42.exe");
}

#[test]
fn inclusion_rule() {
    assert!(WindowEnumerator::should_capture(true, 0));
    assert!(!WindowEnumerator::should_capture(false, 0));
    assert!(!WindowEnumerator::should_capture(true, 77));
}

#[test]
fn geometry_from_rect() {
    let g = WindowPosition::from_rect(10, 20, 110, 70);
    assert_eq!(g, WindowPosition { x: 10, y: 20, width: 100, height: 50 });
    assert_eq!(WindowPosition::default(), WindowPosition { x: 0, y: 0, width: 0, height: 0 });
}

#[test]
fn window_by_index() {
    let e = three_titles();
    assert_eq!(e.get_window_by_index(2).unwrap().title, "chrome - tab");
    assert!(e.get_window_by_index(0).is_none());
    assert!(e.get_window_by_index(4).is_none());
    assert!(WindowEnumerator::default().get_window_by_index(1).is_none());
}

#[test]
fn sort_by_pid_ascending() {
    let mut ws = vec![window(1, 10, "a", 0, 0), window(2, 20, "b", 0, 0), window(3, 5, "c", 0, 0)];
    let sort = SortCriteria { pid: 1, title: 0, position: None };
    WindowSorter::sort_windows(&mut ws, &sort);
    assert_eq!(indices_of(&ws), vec![3, 1, 2]);
    assert_eq!(ws.iter().map(|w| w.pid).collect::<Vec<_>>(), vec![5, 10, 20]);
}

#[test]
fn sort_by_pid_through_snapshot() {
    let e = snapshot(vec![probe(1, "a", 10), probe(2, "b", 20), probe(3, "c", 5)]);
    let sort = SortCriteria { pid: 1, title: 0, position: None };
    let r = e.filter_and_sort_windows(&no_filter(), &sort);
    assert_eq!(indices_of(&r), vec![3, 1, 2]);
}

#[test]
fn sort_ties_fall_to_title_then_position() {
    let mut ws = vec![
        window(1, 7, "beta", 5, 0),
        window(2, 7, "Alpha", 9, 0),
        window(3, 3, "zeta", 0, 0),
        window(4, 7, "alpha", 1, 0),
    ];
    let sort = SortCriteria { pid: 1, title: 1, position: Some(PositionSort::X(-1)) };
    WindowSorter::sort_windows(&mut ws, &sort);
    assert_eq!(indices_of(&ws), vec![3, 2, 4, 1]);
}

#[test]
fn sort_title_descending_ignores_case() {
    let mut ws = vec![window(1, 0, "b", 0, 0), window(2, 0, "C", 0, 0), window(3, 0, "a", 0, 0)];
    let sort = SortCriteria { pid: 0, title: -1, position: None };
    WindowSorter::sort_windows(&mut ws, &sort);
    assert_eq!(indices_of(&ws), vec![2, 1, 3]);
}

#[test]
fn sort_compound_position() {
    let mut ws = vec![
        window(1, 0, "", 5, 1),
        window(2, 0, "", 1, 1),
        window(3, 0, "", 5, 9),
        window(4, 0, "", 1, 4),
    ];
    let sort = SortCriteria { pid: 0, title: 0, position: Some(PositionSort::XY(1, -1)) };
    WindowSorter::sort_windows(&mut ws, &sort);
    assert_eq!(indices_of(&ws), vec![4, 2, 3, 1]);
}

#[test]
fn sort_y_only_is_stable() {
    let mut ws = vec![window(1, 0, "", 9, 2), window(2, 0, "", 1, 1), window(3, 0, "", 0, 2)];
    let sort = SortCriteria { pid: 0, title: 0, position: Some(PositionSort::Y(1)) };
    WindowSorter::sort_windows(&mut ws, &sort);
    assert_eq!(indices_of(&ws), vec![2, 1, 3]);
}

#[test]
fn sort_without_keys_keeps_order() {
    let mut ws = vec![window(2, 9, "b", 0, 0), window(1, 1, "a", 0, 0), window(3, 5, "c", 0, 0)];
    WindowSorter::sort_windows(&mut ws, &SortCriteria::default());
    assert_eq!(indices_of(&ws), vec![2, 1, 3]);
}

#[test]
fn compare_positions_directions() {
    let a = window(1, 0, "", 1, 5);
    let b = window(2, 0, "", 2, 5);
    assert_eq!(WindowSorter::compare_positions(&a, &b, &PositionSort::X(1)), Ordering::Less);
    assert_eq!(WindowSorter::compare_positions(&a, &b, &PositionSort::X(-1)), Ordering::Greater);
    assert_eq!(WindowSorter::compare_positions(&a, &b, &PositionSort::Y(1)), Ordering::Equal);
    assert_eq!(WindowSorter::compare_positions(&a, &b, &PositionSort::XY(-1, 1)), Ordering::Greater);
}

#[test]
fn filter_then_select_uses_stored_index() {
    let e = three_titles();
    let criteria = title_filter("chrome");
    let none = parse_selection("1,3").unwrap();
    assert!(e.filter_windows_with_selection(&criteria, &none).is_empty());
    let two = parse_selection("2").unwrap();
    let r = e.filter_windows_with_selection(&criteria, &two);
    assert_eq!(r.len(), 1);
    assert_eq!(r[0].index, 2);
    assert_eq!(r[0].title, "chrome - tab");
}

#[test]
fn filter_sort_select_uses_stored_index() {
    let e = three_titles();
    let sort = SortCriteria { pid: -1, title: 0, position: None };
    let sel = parse_selection("1,3").unwrap();
    let r = e.filter_sort_windows_with_selection(&no_filter(), &sort, &sel);
    assert_eq!(indices_of(&r), vec![3, 1]);
    let chrome = e.filter_sort_windows_with_selection(&title_filter("chrome"), &sort, &sel);
    assert!(chrome.is_empty());
    let all = e.filter_sort_windows_with_selection(&no_filter(), &sort, &Selection::All);
    assert_eq!(indices_of(&all), vec![3, 2, 1]);
}

#[test]
fn title_filter_ignores_case() {
    let w = window(1, 4, "chrome - tab", 0, 0);
    assert!(matches_criteria(&w, &title_filter("CHROME")));
    assert!(!matches_criteria(&w, &title_filter("firefox")));
}

#[test]
fn find_by_title_ignores_case() {
    let e = three_titles();
    let r = e.find_by_title("CALC");
    assert_eq!(indices_of(&r), vec![3]);
    assert_eq!(e.find_by_title("").len(), 3);
}

#[test]
fn empty_text_criteria_match_everything() {
    let w = window(1, 4, "x", 0, 0);
    let c = FilterCriteria {
        pid: None,
        title_contains: Some(String::new()),
        class_name_contains: Some(String::new()),
        process_name_contains: Some(String::new()),
        process_file_contains: Some(String::new()),
    };
    assert!(matches_criteria(&w, &c));
}

#[test]
fn every_criterion_must_hold() {
    let mut w = window(1, 4, "Editor", 0, 0);
    w.class_name = String::from("EditWindow");
    w.process_name = String::from("Code.exe");
    w.process_file = String::from("C:\\Apps\\Code.exe");
    let c = FilterCriteria {
        pid: Some(4),
        title_contains: Some(String::from("edit")),
        class_name_contains: Some(String::from("WINDOW")),
        process_name_contains: Some(String::from("code")),
        process_file_contains: Some(String::from("apps")),
    };
    assert!(matches_criteria(&w, &c));
    assert!(!matches_criteria(&w, &FilterCriteria { pid: Some(5), ..c.clone() }));
    let wrong_file = FilterCriteria { process_file_contains: Some(String::from("bin")), ..c.clone() };
    assert!(!matches_criteria(&w, &wrong_file));
    let wrong_class = FilterCriteria { class_name_contains: Some(String::from("button")), ..c.clone() };
    assert!(!matches_criteria(&w, &wrong_class));
}

#[test]
fn filter_twice_is_filter_once() {
    let e = three_titles();
    let c = title_filter("c");
    let once = e.filter_windows(&c);
    let again = snapshot(vec![probe(100, "Notepad", 1), probe(200, "chrome - tab", 2), probe(300, "Calculator", 3)])
        .filter_windows(&c);
    assert_eq!(indices_of(&once), vec![2, 3]);
    assert_eq!(indices_of(&once), indices_of(&again));
    let twice: Vec<WindowInfo> = once.iter().filter(|w| matches_criteria(w, &c)).cloned().collect();
    assert_eq!(indices_of(&twice), vec![2, 3]);
}

#[test]
fn error_messages() {
    assert_eq!(WindowError::InvalidIndex.message(), "Invalid index");
    assert_eq!(WindowError::InvalidRange.message(), "Invalid range format");
    assert_eq!(
        WindowError::InvalidSortOrder.message(),
        "Sort order must be 1 (ascending) or -1 (descending)"
    );
    assert_eq!(
        WindowError::InvalidSelectionFormat.message(),
        "Invalid selection format. Use 'all', '1,2,3', or '1-3'"
    );
    assert_eq!(
        WindowError::InvalidPositionSortFormat.message(),
        "Invalid position sort format. Use 'x1', 'y-1', or 'x1|y1'"
    );
    assert_eq!(WindowError::WindowsApiError(0x5).message(), "Windows API error: 0x00000005");
    assert_eq!(
        WindowError::WindowsApiError(0x8007_00AB).message(),
        "Windows API error: 0x800700ab"
    );
    assert_eq!(WindowError::Other(String::from("boom")).message(), "boom");
}

#[test]
fn text_helpers() {
    assert!(contains_substring("chrome - tab", "me - t"));
    assert!(contains_substring("abc", ""));
    assert!(!contains_substring("abc", "abcd"));
    assert!(!contains_substring("Chrome", "chrome"));
    assert_eq!(compare_text("abc", "abd"), Ordering::Less);
    assert_eq!(compare_text("ab", "a"), Ordering::Greater);
    assert_eq!(compare_text("é", "z"), Ordering::Greater);
    assert_eq!(compare_text("", ""), Ordering::Equal);
    assert_eq!(trim(" \t a b \u{3000}\n"), "a b");
    assert_eq!(trim("   "), "");
}
