use tiny_os::interrupts::{key_for_scancode, InterruptIndex, PIC_1_OFFSET, PIC_2_OFFSET};
use tiny_os::qemu::QemuExitCode;
use tiny_os::task::simple_executor::SimpleExecutor;
use tiny_os::task::Task;
use tiny_os::vga_buffer::{Color, ColorCode, ScreenChar, Writer, BUFFER_HEIGHT, BUFFER_WIDTH};

#[test]
fn interrupt_vectors() {
    assert_eq!(PIC_1_OFFSET, 32);
    assert_eq!(PIC_2_OFFSET, 40);
    assert_eq!(InterruptIndex::Timer.as_u8(), 32);
    assert_eq!(InterruptIndex::Keyboard.as_u8(), 33);
    assert_eq!(InterruptIndex::Keyboard.as_usize(), 33);
}

#[test]
fn scancodes_of_digits() {
    assert_eq!(key_for_scancode(0x02), Some('1'));
    assert_eq!(key_for_scancode(0x0a), Some('9'));
    assert_eq!(key_for_scancode(0x0b), Some('0'));
    assert_eq!(key_for_scancode(0x01), None);
    assert_eq!(key_for_scancode(0x1e), None);
}

#[test]
fn qemu_exit_codes() {
    assert_eq!(QemuExitCode::Success.code(), 0x10);
    assert_eq!(QemuExitCode::Failed.code(), 0x11);
}

#[test]
fn color_codes() {
    assert_eq!(ColorCode::new(Color::Yellow, Color::Black), ColorCode(0x0e));
    assert_eq!(ColorCode::new(Color::White, Color::Blue), ColorCode(0x1f));
}

#[test]
fn executor_queue_is_fifo() {
    let mut executor = SimpleExecutor::new();
    assert!(executor.is_empty());
    executor.spawn(Task::new(1));
    executor.spawn(Task::new(2));
    assert_eq!(executor.next_task(), Some(Task::new(1)));
    executor.spawn(Task::new(1));
    assert_eq!(executor.next_task(), Some(Task::new(2)));
    assert_eq!(executor.next_task(), Some(Task::new(1)));
    assert_eq!(executor.next_task(), None);
}

fn writer() -> Writer {
    Writer::new(ColorCode::new(Color::Yellow, Color::Black))
}

fn row_text(w: &Writer, row: usize) -> String {
    (0..BUFFER_WIDTH).map(|c| w.char_at(row, c).ascii_character as char).collect()
}

#[test]
fn test_println_output() {
    let mut w = writer();
    let s = "Some test string that fits on a single line";
    w.write_string(s);
    w.write_string("\n");
    for (i, c) in s.chars().enumerate() {
        let screen_char = w.char_at(BUFFER_HEIGHT - 2, i);
        assert_eq!(char::from(screen_char.ascii_character), c);
        assert_eq!(screen_char.color_code, ColorCode(0x0e));
    }
    assert_eq!(w.column_position(), 0);
    assert_eq!(row_text(&w, BUFFER_HEIGHT - 1), " ".repeat(BUFFER_WIDTH));
}

#[test]
fn test_println_many() {
    let mut w = writer();
    for _ in 0..200 {
        w.write_string("test_println_many output\n");
    }
    let line = format!("{:<80}", "test_println_many output");
    for row in 0..BUFFER_HEIGHT - 1 {
        assert_eq!(row_text(&w, row), line);
    }
}

#[test]
fn long_line_wraps() {
    let mut w = writer();
    let s: String = (0..85).map(|i| (b'a' + (i % 26) as u8) as char).collect();
    w.write_string(&s);
    assert_eq!(row_text(&w, BUFFER_HEIGHT - 2), s[..80].to_string());
    assert_eq!(row_text(&w, BUFFER_HEIGHT - 1), format!("{:<80}", &s[80..]));
    assert_eq!(w.column_position(), 5);
}

#[test]
fn unprintable_bytes_show_as_square() {
    let mut w = writer();
    w.write_string("a\u{e9}b");
    let row = BUFFER_HEIGHT - 1;
    let got: Vec<u8> = (0..4).map(|c| w.char_at(row, c).ascii_character).collect();
    // 'é' is two bytes in UTF-8, each shown as a square.
    assert_eq!(got, vec![b'a', 0xfe, 0xfe, b'b']);
    w.write_byte(b'!');
    assert_eq!(
        w.char_at(row, 4),
        ScreenChar { ascii_character: b'!', color_code: ColorCode(0x0e) }
    );
}
