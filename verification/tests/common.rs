//! Output helpers used when comparing command output.

/// Strip ANSI escape sequences (CSI and OSC forms).
fn strip_ansi(s: &str) -> String {
    let mut out = String::with_capacity(s.len());
    let mut chars = s.chars().peekable();
    while let Some(c) = chars.next() {
        if c == '\x1b' {
            match chars.next() {
                Some('[') => {
                    for c in chars.by_ref() {
                        if c.is_ascii_alphabetic() {
                            break;
                        }
                    }
                }
                Some(']') => {
                    for c in chars.by_ref() {
                        if c == '\x07' {
                            break;
                        }
                        if c == '\x1b' {
                            chars.next();
                            break;
                        }
                    }
                }
                Some(_) | None => {}
            }
            continue;
        }
        out.push(c);
    }
    out
}

#[test]
fn strip_ansi_removes_color_codes() {
    let input = "\x1b[1;31mhello\x1b[0m world";
    assert_eq!(strip_ansi(input), "hello world");
}

#[test]
fn strip_ansi_passes_through_plain_text() {
    let input = "hello world\n  two lines";
    assert_eq!(strip_ansi(input), input);
}
