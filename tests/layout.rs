use window_enumerator::{WindowEnumerator, WindowInfo, WindowPosition, WindowProbe};

fn window(index: usize, hwnd: isize, pid: u32, x: i32, y: i32, title: &str) -> WindowInfo {
    WindowInfo {
        hwnd,
        pid,
        title: title.to_string(),
        class_name: String::new(),
        process_name: String::new(),
        process_file: String::new(),
        index,
        position: WindowPosition { x, y, width: 3, height: 4 },
    }
}

fn expected_row(w: &WindowInfo) -> String {
    format!(
        "{:5} | 0x{:08x} | {:6} | {:4},{:4}     | {}",
        w.index, w.hwnd, w.pid, w.position.x, w.position.y, w.title
    )
}

fn expected_compact(w: &WindowInfo) -> String {
    format!(
        "[{}] 0x{:x} (PID: {}) @ ({},{}) - {}",
        w.index, w.hwnd, w.pid, w.position.x, w.position.y, w.title
    )
}

fn samples() -> Vec<WindowInfo> {
    vec![
        window(1, 0x1a2b, 1234, 10, 20, "Notepad"),
        window(12, 0, 0, -5, -300, "chrome - tab"),
        window(123456, 0x1234_5678_9abc, 4_000_000_000, 12345, -2147483648, ""),
        window(7, -1, 42, 2147483647, 0, "é ü"),
        window(3, isize::MIN, 7, 0, 9, "x"),
    ]
}

#[test]
fn compact_line_matches_layout() {
    let w = window(3, 0x00ab, 1234, -5, 40, "Calculator");
    assert_eq!(w.compact_line(), "[3] 0xab (PID: 1234) @ (-5,40) - Calculator");
    for w in samples() {
        assert_eq!(w.compact_line(), expected_compact(&w));
    }
}

#[test]
fn table_row_matches_layout() {
    let w = window(2, 0x1a2b, 99, 7, -8, "Notepad");
    assert_eq!(w.table_row_line(), "    2 | 0x00001a2b |     99 |    7,  -8     | Notepad");
    for w in samples() {
        assert_eq!(w.table_row_line(), expected_row(&w));
    }
}

#[test]
fn table_lines_of_snapshot() {
    let mut e = WindowEnumerator::new();
    let probes = vec![
        WindowProbe {
            hwnd: 0x10,
            title: String::from("first"),
            class_name: String::new(),
            pid: 5,
            process: None,
            position: Some(WindowPosition { x: 1, y: 2, width: 3, height: 4 }),
        },
        WindowProbe {
            hwnd: 0x20,
            title: String::from("second"),
            class_name: String::new(),
            pid: 6,
            process: None,
            position: None,
        },
    ];
    e.enumerate_all_windows(Ok(probes)).unwrap();
    let lines = e.table_lines();
    assert_eq!(lines.len(), 4);
    assert_eq!(lines[0], "Index | Handle      | PID    | Position    | Title");
    assert_eq!(lines[1], "------|-------------|--------|-------------|-------------------");
    assert_eq!(lines[2], "    1 | 0x00000010 |      5 |    1,   2     | first");
    assert_eq!(lines[3], "    2 | 0x00000020 |      6 |    0,   0     | second");
}

#[test]
fn table_lines_of_empty_snapshot() {
    let lines = WindowEnumerator::new().table_lines();
    assert_eq!(lines.len(), 2);
}
