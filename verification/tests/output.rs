use pathbin::output::{render_os, render_path, render_text};

#[test]
fn printable_text_is_unchanged() {
    assert_eq!(render_text("normal/path-日本語"), "normal/path-日本語");
}

#[test]
fn control_characters_are_escaped() {
    assert_eq!(
        render_text("line\ncolumn\t\u{1b}[31m"),
        "line\\ncolumn\\t\\u{1b}[31m"
    );
}

#[test]
fn non_utf8_names_are_rendered_as_distinct_byte_sequences() {
    let first: &[u8] = b"tool-\xfe";
    let second: &[u8] = b"tool-\xff";

    assert_eq!(render_os(first), "tool-\\xFE");
    assert_eq!(render_os(second), "tool-\\xFF");
    assert_ne!(render_os(first), render_os(second));
}

#[test]
fn every_control_character_escape_form_is_used() {
    assert_eq!(render_text("\r"), "\\r");
    assert_eq!(render_text("\u{0}"), "\\u{0}");
    assert_eq!(render_text("\u{7f}"), "\\u{7f}");
    assert_eq!(render_text("\u{9f}"), "\\u{9f}");
    assert_eq!(render_text("\u{a0}x"), "\u{a0}x");
    assert_eq!(render_text(""), "");
}

#[test]
fn utf8_bytes_render_as_text() {
    assert_eq!(render_os("bad\n\x1b[31m".as_bytes()), "bad\\n\\u{1b}[31m");
    assert_eq!(render_path(b"/usr/bin/tool"), "/usr/bin/tool");
}

#[test]
fn non_utf8_bytes_escape_backslash_and_whitespace() {
    assert_eq!(render_os(b"a\\b\n\r\t\xff"), "a\\\\b\\n\\r\\t\\xFF");
    assert_eq!(render_os(b"\x80"), "\\x80");
    assert_eq!(render_os(b"\x1b\xc3"), "\\x1B\\xC3");
}

/// Reads a rendering of bytes back into the bytes.
fn read_back(rendered: &str) -> Vec<u8> {
    let chars: Vec<char> = rendered.chars().collect();
    let mut out = Vec::new();
    let mut i = 0;
    while i < chars.len() {
        if chars[i] == '\\' && i + 1 < chars.len() {
            match chars[i + 1] {
                '\\' => out.push(b'\\'),
                'n' => out.push(b'\n'),
                'r' => out.push(b'\r'),
                't' => out.push(b'\t'),
                'x' => {
                    let hex: String = chars[i + 2..i + 4].iter().collect();
                    out.push(u8::from_str_radix(&hex, 16).expect("two hexadecimal digits"));
                    i += 4;
                    continue;
                }
                other => panic!("unexpected escape {other}"),
            }
            i += 2;
        } else {
            out.push(chars[i] as u8);
            i += 1;
        }
    }
    out
}

#[test]
fn non_utf8_renderings_read_back_to_the_same_bytes() {
    let names: [&[u8]; 4] = [b"tool-\xff", b"a\\b\n\r\t\x00\x7f\xc3", b"\x80", b"x\\xFF\xfe"];
    for name in names {
        let rendered = render_os(name);
        assert_eq!(read_back(&rendered), name.to_vec(), "{rendered}");
    }
    assert_eq!(render_os(b"x\\xFF\xfe"), "x\\\\xFF\\xFE");
}
