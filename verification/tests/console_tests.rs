//! Console decision logic: key tests, tokenization, dispatch, suggestions,
//! and the input/history state machine.

use console_core::console::{
    console_key_pressed, console_toggle_decision, dispatch_words, parse_submitted_line,
    read_line_action, str_to_command, tokenize, CommandRegistry, ConsoleState, KeyInput,
    LineDispatch, LineRead, LineReadAction, PrintConsoleLine,
};

#[test]
fn test_console_key_pressed_scan_code() {
    let input = KeyInput {
        key_code: 41,
        pressed: true,
    };

    let config = vec![41u32];

    let result = console_key_pressed(&input, &config);
    assert!(result);
}

#[test]
fn test_console_wrong_key_pressed_scan_code() {
    let input = KeyInput {
        key_code: 42,
        pressed: true,
    };

    let config = vec![41u32];

    let result = console_key_pressed(&input, &config);
    assert!(!result);
}

#[test]
fn test_console_key_pressed_key_code() {
    let input = KeyInput {
        key_code: 96,
        pressed: true,
    };

    let config = vec![96u32];

    let result = console_key_pressed(&input, &config);
    assert!(result);
}

#[test]
fn test_console_wrong_key_pressed_key_code() {
    let input = KeyInput {
        key_code: 65,
        pressed: true,
    };

    let config = vec![96u32];

    let result = console_key_pressed(&input, &config);
    assert!(!result);
}

#[test]
fn test_console_key_right_key_but_not_pressed() {
    let input = KeyInput {
        key_code: 96,
        pressed: false,
    };

    let config = vec![96u32];

    let result = console_key_pressed(&input, &config);
    assert!(!result);
}

#[test]
fn toggle_opens_only_without_keyboard_capture() {
    assert!(console_toggle_decision(true, true, true));
    assert!(console_toggle_decision(true, false, false));
    assert!(!console_toggle_decision(true, false, true));
    assert!(!console_toggle_decision(false, true, false));
}

#[test]
fn tokenize_splits_on_whitespace_runs() {
    let toks = tokenize(b"  log   msg\t3 ");
    assert_eq!(
        toks,
        vec![b"log".to_vec(), b"msg".to_vec(), b"3".to_vec()]
    );
}

#[test]
fn tokenize_empty_and_blank_lines() {
    assert!(tokenize(b"").is_empty());
    assert!(tokenize(b" \t  \n").is_empty());
}

#[test]
fn str_to_command_splits_name_and_args() {
    let cmd = str_to_command(b"log hello 3").unwrap();
    assert_eq!(cmd.command_name, b"log".to_vec());
    assert_eq!(cmd.args, vec![b"hello".to_vec(), b"3".to_vec()]);
}

#[test]
fn str_to_command_blank_line_is_none() {
    assert!(str_to_command(b"   ").is_none());
}

#[test]
fn registry_registers_and_reports_duplicates() {
    let mut reg = CommandRegistry::new();
    assert!(!reg.register(b"help".to_vec()));
    assert!(!reg.register(b"quit".to_vec()));
    assert!(reg.register(b"help".to_vec()));
    assert_eq!(reg.len(), 2);
    assert!(reg.contains_name(b"help"));
    assert!(reg.contains_name(b"quit"));
    assert!(!reg.contains_name(b"log"));
}

#[test]
fn suggestions_filter_by_prefix_and_limit() {
    let mut reg = CommandRegistry::new();
    reg.register(b"help".to_vec());
    reg.register(b"hello".to_vec());
    reg.register(b"quit".to_vec());
    reg.register(b"heap".to_vec());
    let s = reg.suggestions(b"he", 4);
    assert_eq!(s, vec![b"help".to_vec(), b"hello".to_vec(), b"heap".to_vec()]);
    let s = reg.suggestions(b"he", 2);
    assert_eq!(s, vec![b"help".to_vec(), b"hello".to_vec()]);
    let s = reg.suggestions(b"", 2);
    assert_eq!(s, vec![b"help".to_vec(), b"hello".to_vec()]);
    let s = reg.suggestions(b"zz", 4);
    assert!(s.is_empty());
}

#[test]
fn dispatch_empty_known_and_unknown() {
    let mut reg = CommandRegistry::new();
    reg.register(b"greet".to_vec());

    match dispatch_words(vec![], &reg) {
        LineDispatch::Empty => {}
        _ => panic!("expected no dispatch for an empty word list"),
    }

    match dispatch_words(vec![b"greet".to_vec(), b"bob".to_vec()], &reg) {
        LineDispatch::Command(cmd) => {
            assert_eq!(cmd.command_name, b"greet".to_vec());
            assert_eq!(cmd.args, vec![b"bob".to_vec()]);
        }
        _ => panic!("expected a command dispatch"),
    }

    match dispatch_words(vec![b"nope".to_vec()], &reg) {
        LineDispatch::Unknown(name) => assert_eq!(name, b"nope".to_vec()),
        _ => panic!("expected an unknown-command dispatch"),
    }
}

#[test]
fn submitted_line_honours_shell_quoting() {
    let mut reg = CommandRegistry::new();
    reg.register(b"greet".to_vec());
    match parse_submitted_line("greet \"a b\"  c", &reg) {
        LineDispatch::Command(cmd) => {
            assert_eq!(cmd.command_name, b"greet".to_vec());
            assert_eq!(cmd.args, vec![b"a b".to_vec(), b"c".to_vec()]);
        }
        _ => panic!("expected a command dispatch"),
    }
}

#[test]
fn fresh_console_state() {
    let state = ConsoleState::default();
    assert!(state.buf.is_empty());
    assert!(state.scrollback.is_empty());
    assert_eq!(state.history, vec![Vec::<u8>::new()]);
    assert_eq!(state.history_index, 0);
}

#[test]
fn scrollback_push_and_clear() {
    let mut state = ConsoleState::default();
    state.push_scrollback(b"one".to_vec());
    state.push_scrollback(b"two".to_vec());
    assert_eq!(state.scrollback, vec![b"one".to_vec(), b"two".to_vec()]);
    state.clear_scrollback();
    assert!(state.scrollback.is_empty());
}

#[test]
fn history_records_and_trims_to_size() {
    let mut state = ConsoleState::default();
    state.record_submitted(b"first".to_vec(), 2);
    state.record_submitted(b"second".to_vec(), 2);
    state.record_submitted(b"third".to_vec(), 2);
    assert_eq!(
        state.history,
        vec![
            Vec::<u8>::new(),
            b"third".to_vec(),
            b"second".to_vec(),
        ]
    );
}

#[test]
fn history_walk_up_parks_unsubmitted_text_and_down_returns() {
    let mut state = ConsoleState::default();
    state.record_submitted(b"older".to_vec(), 10);
    state.record_submitted(b"newer".to_vec(), 10);
    state.buf = b"draft".to_vec();

    state.history_up();
    assert_eq!(state.buf, b"newer".to_vec());
    assert_eq!(state.history_index, 1);
    assert_eq!(state.history[0], b"draft".to_vec());

    state.history_up();
    assert_eq!(state.buf, b"older".to_vec());
    assert_eq!(state.history_index, 2);

    state.history_up();
    assert_eq!(state.buf, b"older".to_vec());
    assert_eq!(state.history_index, 2);

    state.history_down();
    assert_eq!(state.buf, b"newer".to_vec());
    assert_eq!(state.history_index, 1);

    state.history_down();
    assert_eq!(state.buf, b"draft".to_vec());
    assert_eq!(state.history_index, 0);

    state.history_down();
    assert_eq!(state.history_index, 0);
}

#[test]
fn line_reader_events_map_to_actions() {
    match read_line_action(LineRead::Line(b"log hi".to_vec())) {
        LineReadAction::Dispatch(cmd) => {
            assert_eq!(cmd.command_name, b"log".to_vec());
            assert_eq!(cmd.args, vec![b"hi".to_vec()]);
        }
        _ => panic!("expected a dispatch for a line holding a command"),
    }
    assert!(matches!(
        read_line_action(LineRead::Line(b"  ".to_vec())),
        LineReadAction::Nothing
    ));
    assert!(matches!(
        read_line_action(LineRead::Interrupted),
        LineReadAction::NotifyInterrupt
    ));
    assert!(matches!(
        read_line_action(LineRead::Failed),
        LineReadAction::Nothing
    ));
}

#[test]
fn print_console_line_holds_its_line() {
    let line = PrintConsoleLine::new(String::from("ready"));
    assert_eq!(line.line, "ready");
}
