use rustos::log::{
    init_logging, level_rank, log_enabled, new_log_state, set_min_log_level, GroupedBin, LogLevel, UartLogger,
};
use rustos::sh::{after_fork, command_of, exec_report, readline_key, AfterFork, MAX_CMD};

fn text(v: &[u8]) -> String {
    String::from_utf8(v.to_vec()).unwrap()
}

#[test]
fn log_levels_rank_in_order() {
    assert_eq!(level_rank(LogLevel::Debug), 0);
    assert_eq!(level_rank(LogLevel::Info), 1);
    assert_eq!(level_rank(LogLevel::Warn), 2);
    assert_eq!(level_rank(LogLevel::Error), 3);
}

#[test]
fn logging_starts_off_at_info() {
    let s = new_log_state();
    assert!(!s.initialised);
    assert_eq!(s.min_level, LogLevel::Info);
    assert!(!log_enabled(&s, LogLevel::Debug));
    assert!(log_enabled(&s, LogLevel::Info));
    assert!(log_enabled(&s, LogLevel::Error));
}

#[test]
fn init_logging_keeps_the_level() {
    let mut s = new_log_state();
    set_min_log_level(&mut s, LogLevel::Warn);
    init_logging(&mut s);
    assert!(s.initialised);
    assert_eq!(s.min_level, LogLevel::Warn);
}

#[test]
fn raising_the_level_filters_more() {
    let mut s = new_log_state();
    init_logging(&mut s);
    set_min_log_level(&mut s, LogLevel::Debug);
    assert!(log_enabled(&s, LogLevel::Debug));
    set_min_log_level(&mut s, LogLevel::Error);
    assert!(!log_enabled(&s, LogLevel::Debug));
    assert!(!log_enabled(&s, LogLevel::Info));
    assert!(!log_enabled(&s, LogLevel::Warn));
    assert!(log_enabled(&s, LogLevel::Error));
    assert!(s.initialised);
}

#[test]
fn uart_puts_adds_carriage_returns() {
    assert_eq!(UartLogger::puts("a\nb"), b"a\r\nb".to_vec());
    assert_eq!(UartLogger::puts("\n\n"), b"\r\n\r\n".to_vec());
    assert_eq!(UartLogger::puts(""), Vec::<u8>::new());
    assert_eq!(UartLogger::puts("rustOS: MMU enabled\n"), b"rustOS: MMU enabled\r\n".to_vec());
}

#[test]
fn uart_puts_length_is_one_more_per_newline() {
    let s = "one\ntwo\nthree";
    assert_eq!(UartLogger::puts(s).len(), s.len() + 2);
}

#[test]
fn uart_putc_waits_while_fifo_full() {
    assert_eq!(UartLogger::putc(0x20, b'x'), None);
    assert_eq!(UartLogger::putc(0xFFFF_FFFF, b'x'), None);
    assert_eq!(UartLogger::putc(0, b'x'), Some(0x78));
    assert_eq!(UartLogger::putc(0x10, b'\n'), Some(0x0A));
}

#[test]
fn uart_getc_waits_while_fifo_empty() {
    assert_eq!(UartLogger::getc(0x10, 0x41), None);
    assert_eq!(UartLogger::getc(0, 0x41), Some(b'A'));
    assert_eq!(UartLogger::getc(0x20, 0x1234), Some(0x34));
}

#[test]
fn grouped_bin_in_fours() {
    assert_eq!(text(&GroupedBin::new(0b1011, 8).to_text()), "0000_1011");
    assert_eq!(text(&GroupedBin::new(0xF0, 8).to_text()), "1111_0000");
    assert_eq!(text(&GroupedBin::new(5, 4).to_text()), "0101");
    assert_eq!(text(&GroupedBin::new(0x1FF, 9).to_text()), "1_1111_1111");
}

#[test]
fn grouped_bin_other_groups() {
    let g = GroupedBin::with_group(5, 3, 2);
    assert_eq!(g.value, 5);
    assert_eq!(g.width, 3);
    assert_eq!(g.group, 2);
    assert_eq!(text(&g.to_text()), "1_01");
    assert_eq!(text(&GroupedBin::with_group(0xAB, 8, 8).to_text()), "10101011");
    assert_eq!(text(&GroupedBin::with_group(6, 3, 1).to_text()), "1_1_0");
}

#[test]
fn grouped_bin_empty_cases() {
    assert!(GroupedBin::new(7, 0).to_text().is_empty());
    assert!(GroupedBin::with_group(7, 4, 0).to_text().is_empty());
}

#[test]
fn grouped_bin_full_width() {
    let t = GroupedBin::new(usize::MAX, 64).to_text();
    assert_eq!(t.len(), 64 + 15);
    assert!(t.iter().all(|&c| c == b'1' || c == b'_'));
}

#[test]
fn readline_stores_and_echoes_printable() {
    let mut line: Vec<u8> = Vec::new();
    let o = readline_key(&mut line, b'h');
    assert!(!o.done);
    assert_eq!(o.echo, b"h".to_vec());
    readline_key(&mut line, b'i');
    assert_eq!(line, b"hi".to_vec());
}

#[test]
fn readline_enter_ends_the_line() {
    let mut line = b"help".to_vec();
    let o = readline_key(&mut line, b'\r');
    assert!(o.done);
    assert_eq!(o.echo, b"\n".to_vec());
    assert_eq!(line, b"help".to_vec());
    let o = readline_key(&mut line, b'\n');
    assert!(o.done);
    assert_eq!(o.echo, b"\n".to_vec());
}

#[test]
fn readline_backspace_erases() {
    let mut line = b"ab".to_vec();
    let o = readline_key(&mut line, 8);
    assert!(!o.done);
    assert_eq!(o.echo, vec![8, b' ', 8]);
    assert_eq!(line, b"a".to_vec());
    let o = readline_key(&mut line, 127);
    assert_eq!(o.echo, vec![8, b' ', 8]);
    assert!(line.is_empty());
    let o = readline_key(&mut line, 127);
    assert!(o.echo.is_empty());
    assert!(line.is_empty());
}

#[test]
fn readline_type_then_erase_restores() {
    let mut line = b"ls".to_vec();
    readline_key(&mut line, b'x');
    readline_key(&mut line, 8);
    assert_eq!(line, b"ls".to_vec());
}

#[test]
fn readline_ignores_control_keys() {
    let mut line = b"a".to_vec();
    for c in [0u8, 9, 27, 31, 128, 200, 255] {
        let o = readline_key(&mut line, c);
        assert!(!o.done);
        assert!(o.echo.is_empty());
    }
    assert_eq!(line, b"a".to_vec());
}

#[test]
fn readline_stops_at_capacity() {
    let mut line: Vec<u8> = Vec::new();
    for _ in 0..(MAX_CMD + 10) {
        readline_key(&mut line, b'z');
    }
    assert_eq!(line.len(), MAX_CMD - 1);
    let o = readline_key(&mut line, b'z');
    assert!(o.echo.is_empty());
    assert_eq!(line.len(), 63);
}

#[test]
fn command_strips_leading_dot_slash() {
    assert_eq!(command_of(b"./help"), b"help".to_vec());
    assert_eq!(command_of(b"help"), b"help".to_vec());
    assert_eq!(command_of(b"././sh"), b"sh".to_vec());
    assert_eq!(command_of(b"./"), Vec::<u8>::new());
    assert_eq!(command_of(b"."), b".".to_vec());
    assert_eq!(command_of(b"../sh"), b"../sh".to_vec());
    assert_eq!(command_of(b"a/./b"), b"a/./b".to_vec());
}

#[test]
fn fork_result_picks_the_side() {
    assert_eq!(after_fork(-1), AfterFork::Failed);
    assert_eq!(after_fork(i64::MIN), AfterFork::Failed);
    assert_eq!(after_fork(0), AfterFork::Child);
    assert_eq!(after_fork(2), AfterFork::Parent);
}

#[test]
fn exec_report_only_on_failure() {
    assert_eq!(exec_report(0, b"help"), None);
    assert_eq!(exec_report(5, b"help"), None);
    assert_eq!(exec_report(-1, b"ls").unwrap(), b"sh: exec failed: \nls\n".to_vec());
    assert_eq!(exec_report(-1, b"").unwrap(), b"sh: exec failed: \n\n".to_vec());
}
