//! Compositor behaviour: run coverage, style threading, reset semantics.

use console_core::color::Colour;
use console_core::compose::{default_style, style_ansi_text, StyledRun};

fn base() -> console_core::compose::StyleState {
    default_style(Colour::from_rgb(220, 220, 220))
}

fn concat_text(runs: &[StyledRun]) -> Vec<u8> {
    let mut out = Vec::new();
    for run in runs {
        out.extend_from_slice(&run.text);
    }
    out
}

#[test]
fn plain_text_single_run_at_base_style() {
    let base = base();
    let runs = style_ansi_text("hello world", &base).unwrap();
    assert_eq!(runs.len(), 1);
    assert_eq!(runs[0].text, b"hello world".to_vec());
    assert_eq!(runs[0].style, base);
}

#[test]
fn empty_input_yields_no_runs() {
    let base = base();
    let runs = style_ansi_text("", &base).unwrap();
    assert!(runs.is_empty());
}

#[test]
fn concatenated_runs_reconstruct_plain_text() {
    let base = base();
    let input = "\u{1b}[1mbold\u{1b}[31m and red\u{1b}[0m then plain";
    let runs = style_ansi_text(input, &base).unwrap();
    assert_eq!(concat_text(&runs), b"bold and red then plain".to_vec());
}

#[test]
fn stripping_removes_escape_bytes_from_runs() {
    let base = base();
    let input = "\u{1b}[1mab\u{1b}[0mcd";
    let runs = style_ansi_text(input, &base).unwrap();
    let text = concat_text(&runs);
    assert_eq!(text, b"abcd".to_vec());
    assert!(!text.contains(&0x1b));
}

#[test]
fn nested_styles_three_runs() {
    // Bold wraps all ten bytes, red wraps only the last five; the reset at
    // byte ten coincides with the end of the text, so nothing follows.
    let base = base();
    let input = "\u{1b}[1m12345\u{1b}[31m12345\u{1b}[0m";
    let runs = style_ansi_text(input, &base).unwrap();
    assert_eq!(runs.len(), 2);
    assert_eq!(runs[0].text, b"12345".to_vec());
    assert_eq!(runs[0].style.size, 16);
    assert_eq!(runs[0].style.foreground, Colour::from_rgb(220, 220, 220));
    assert_eq!(runs[1].text, b"12345".to_vec());
    assert_eq!(runs[1].style.size, 16);
    assert_eq!(runs[1].style.foreground, Colour::from_rgb(222, 56, 43));
}

#[test]
fn reset_returns_every_field_to_base() {
    let base = base();
    let input = "\u{1b}[1m\u{1b}[3m\u{1b}[4m\u{1b}[9m\u{1b}[31m\u{1b}[41mab\u{1b}[0mcd";
    let runs = style_ansi_text(input, &base).unwrap();
    assert_eq!(runs.len(), 2);
    let styled = &runs[0].style;
    assert_eq!(styled.size, 16);
    assert!(styled.italic);
    assert!(styled.underline);
    assert!(styled.strikethrough);
    assert_eq!(styled.foreground, Colour::from_rgb(222, 56, 43));
    assert_eq!(styled.background, Some(Colour::from_rgb(222, 56, 43)));
    assert_eq!(runs[1].style, base);
}

#[test]
fn overrides_persist_across_runs_until_reset() {
    let base = base();
    let input = "\u{1b}[3mab\u{1b}[31mcd";
    let runs = style_ansi_text(input, &base).unwrap();
    assert_eq!(runs.len(), 2);
    assert!(runs[0].style.italic);
    assert!(runs[1].style.italic);
    assert_eq!(runs[1].style.foreground, Colour::from_rgb(222, 56, 43));
}

#[test]
fn background_override_sets_background_field() {
    let base = base();
    let runs = style_ansi_text("\u{1b}[41mab", &base).unwrap();
    assert_eq!(runs.len(), 1);
    assert_eq!(runs[0].style.background, Some(Colour::from_rgb(222, 56, 43)));
    assert_eq!(base.background, None);
}

#[test]
fn bold_and_dim_in_one_entry_apply_in_insertion_order() {
    // Both adjust the same size proxy; the member decoded later wins, the
    // chosen deterministic resolution of this tie.
    let base = base();
    let runs = style_ansi_text("\u{1b}[1;2mab", &base).unwrap();
    assert_eq!(runs.len(), 1);
    assert_eq!(runs[0].style.size, 12);
}

#[test]
fn style_changes_midway_split_runs_at_offsets() {
    let base = base();
    let input = "aa\u{1b}[4mbb\u{1b}[0mcc";
    let runs = style_ansi_text(input, &base).unwrap();
    assert_eq!(runs.len(), 3);
    assert_eq!(runs[0].text, b"aa".to_vec());
    assert_eq!(runs[0].style, base);
    assert_eq!(runs[1].text, b"bb".to_vec());
    assert!(runs[1].style.underline);
    assert_eq!(runs[2].text, b"cc".to_vec());
    assert_eq!(runs[2].style, base);
}

#[test]
fn default_style_fields() {
    let s = default_style(Colour::from_rgb(10, 20, 30));
    assert_eq!(s.size, 14);
    assert!(!s.italic);
    assert!(!s.underline);
    assert!(!s.strikethrough);
    assert_eq!(s.foreground, Colour::from_rgb(10, 20, 30));
    assert_eq!(s.background, None);
}
