use vstd::prelude::*;
use vstd::std_specs::iter::IteratorSpec;
use vstd::utf8::{decode_utf8, valid_utf8};

verus! {

/// A character in the Unicode general category `Cc` (what `char::is_control` tests).
pub open spec fn is_control(c: char) -> bool {
    (c as u32) <= 0x1f || (0x7f <= (c as u32) && (c as u32) <= 0x9f)
}

/// The lower-case hexadecimal digit for a value below 16.
pub open spec fn hex_digit_lower(d: nat) -> char {
    if d < 10 {
        ((d + 48) as u8) as char
    } else {
        ((d + 87) as u8) as char
    }
}

/// Lower-case hexadecimal digits of `n`, without leading zeros.
pub open spec fn lower_hex(n: nat) -> Seq<char>
    decreases n,
{
    if n < 16 {
        seq![hex_digit_lower(n)]
    } else {
        lower_hex(n / 16).push(hex_digit_lower(n % 16))
    }
}

/// How `char::escape_default` writes a control character.
pub open spec fn escape_control(c: char) -> Seq<char> {
    if c == '\t' {
        seq!['\\', 't']
    } else if c == '\r' {
        seq!['\\', 'r']
    } else if c == '\n' {
        seq!['\\', 'n']
    } else {
        seq!['\\', 'u', '{'] + lower_hex(c as nat) + seq!['}']
    }
}

/// The display form of one character: control characters escaped, others kept.
pub open spec fn render_char(c: char) -> Seq<char> {
    if is_control(c) {
        escape_control(c)
    } else {
        seq![c]
    }
}

/// The display form of a text: each character rendered in turn.
pub open spec fn rendered_text(s: Seq<char>) -> Seq<char>
    decreases s.len(),
{
    if s.len() == 0 {
        Seq::empty()
    } else {
        rendered_text(s.drop_last()) + render_char(s.last())
    }
}

/// Appends a character to a string (`String::push`).
#[verifier::external_body]
pub fn push_char(s: &mut String, c: char)
    ensures
        final(s)@ == old(s)@.push(c),
{
    s.push(c);
}

fn is_control_char(c: char) -> (b: bool)
    ensures
        b == is_control(c),
{
    let n = c as u32;
    n <= 0x1f || (0x7f <= n && n <= 0x9f)
}

fn hex_char(d: u32) -> (c: char)
    requires
        d < 16,
    ensures
        c == hex_digit_lower(d as nat),
{
    if d < 10 {
        ((d + 48) as u8) as char
    } else {
        ((d + 87) as u8) as char
    }
}

fn push_escaped_control(out: &mut String, c: char)
    requires
        is_control(c),
    ensures
        final(out)@ == old(out)@ + escape_control(c),
{
    if c == '\t' {
        push_char(out, '\\');
        push_char(out, 't');
    } else if c == '\r' {
        push_char(out, '\\');
        push_char(out, 'r');
    } else if c == '\n' {
        push_char(out, '\\');
        push_char(out, 'n');
    } else {
        let n = c as u32;
        push_char(out, '\\');
        push_char(out, 'u');
        push_char(out, '{');
        if n >= 16 {
            assert(n / 16 < 16);
            push_char(out, hex_char(n / 16));
            push_char(out, hex_char(n % 16));
            assert(lower_hex((n / 16) as nat) == seq![hex_digit_lower((n / 16) as nat)]);
        } else {
            push_char(out, hex_char(n));
        }
        push_char(out, '}');
        assert(final(out)@ == old(out)@ + escape_control(c));
    }
}

/// Renders text for display: every control character is replaced by its
/// escape sequence (`\n`, `\r`, `\t` or `\u{..}`); all other characters are kept.
pub fn render_text(value: &str) -> (rendered: String)
    ensures
        rendered@ == rendered_text(value@),
{
    broadcast use vstd::string::group_string_axioms;
    let mut rendered = String::new();
    let mut chars_it = value.chars();
    let ghost mut done: int = 0;
    loop
        invariant
            0 <= done <= value@.len(),
            chars_it.remaining() == value@.skip(done),
            rendered@ == rendered_text(value@.take(done)),
        ensures
            rendered@ == rendered_text(value@),
        decreases value@.len() - done,
    {
        match chars_it.next() {
            Some(c) => {
                proof {
                    assert(value@.take(done + 1).drop_last() == value@.take(done));
                    assert(value@.take(done + 1).last() == c);
                }
                if is_control_char(c) {
                    push_escaped_control(&mut rendered, c);
                } else {
                    push_char(&mut rendered, c);
                }
                proof {
                    done = done + 1;
                    assert(chars_it.remaining() == value@.skip(done));
                }
            },
            None => {
                proof {
                    assert(value@.take(done) == value@);
                }
                break;
            },
        }
    }
    rendered
}

/// The upper-case hexadecimal digit for a value below 16.
pub open spec fn hex_digit_upper(d: nat) -> char {
    if d < 10 {
        ((d + 48) as u8) as char
    } else {
        ((d + 55) as u8) as char
    }
}

/// How one byte of a name that is not UTF-8 is shown: backslash, newline,
/// carriage return and tab escaped, printable ASCII kept, every other byte
/// as `\xHH` with two upper-case hexadecimal digits.
pub open spec fn render_byte(b: u8) -> Seq<char> {
    if b == 92 {
        seq!['\\', '\\']
    } else if b == 10 {
        seq!['\\', 'n']
    } else if b == 13 {
        seq!['\\', 'r']
    } else if b == 9 {
        seq!['\\', 't']
    } else if 0x20 <= b <= 0x7e {
        seq![b as char]
    } else {
        seq!['\\', 'x', hex_digit_upper((b / 16) as nat), hex_digit_upper((b % 16) as nat)]
    }
}

/// The display form of a byte string shown byte by byte.
pub open spec fn rendered_bytes(s: Seq<u8>) -> Seq<char>
    decreases s.len(),
{
    if s.len() == 0 {
        Seq::empty()
    } else {
        rendered_bytes(s.drop_last()) + render_byte(s.last())
    }
}

/// The display form of a name or path given as the platform's raw bytes:
/// valid UTF-8 is decoded and rendered as text, anything else byte by byte.
pub open spec fn rendered_os(s: Seq<u8>) -> Seq<char> {
    if valid_utf8(s) {
        rendered_text(decode_utf8(s))
    } else {
        rendered_bytes(s)
    }
}

/// The bytes read as UTF-8 text, when they are valid UTF-8 (`std::str::from_utf8`).
#[verifier::external_body]
fn utf8_text(bytes: &[u8]) -> (text: Option<&str>)
    ensures
        match text {
            Some(t) => valid_utf8(bytes@) && t@ == decode_utf8(bytes@),
            None => !valid_utf8(bytes@),
        },
{
    match std::str::from_utf8(bytes) {
        Ok(t) => Some(t),
        Err(_) => None,
    }
}

fn hex_upper(d: u8) -> (c: char)
    requires
        d < 16,
    ensures
        c == hex_digit_upper(d as nat),
{
    if d < 10 {
        ((d + 48) as u8) as char
    } else {
        ((d + 55) as u8) as char
    }
}

fn push_rendered_byte(out: &mut String, b: u8)
    ensures
        final(out)@ == old(out)@ + render_byte(b),
{
    if b == 92 {
        push_char(out, '\\');
        push_char(out, '\\');
    } else if b == 10 {
        push_char(out, '\\');
        push_char(out, 'n');
    } else if b == 13 {
        push_char(out, '\\');
        push_char(out, 'r');
    } else if b == 9 {
        push_char(out, '\\');
        push_char(out, 't');
    } else if 0x20 <= b && b <= 0x7e {
        push_char(out, b as char);
    } else {
        push_char(out, '\\');
        push_char(out, 'x');
        push_char(out, hex_upper(b / 16));
        push_char(out, hex_upper(b % 16));
    }
    assert(final(out)@ =~= old(out)@ + render_byte(b));
}

/// Renders bytes that are not UTF-8 one by one, so that different byte
/// strings stay apart: see `render_byte`.
pub fn render_non_utf8(value: &[u8]) -> (rendered: String)
    ensures
        rendered@ == rendered_bytes(value@),
{
    let mut rendered = String::new();
    let mut i: usize = 0;
    assert(value@.take(0) =~= Seq::<u8>::empty());
    while i < value.len()
        invariant
            i <= value@.len(),
            rendered@ == rendered_bytes(value@.take(i as int)),
        decreases value@.len() - i,
    {
        assert(value@.take(i + 1).drop_last() =~= value@.take(i as int));
        push_rendered_byte(&mut rendered, value[i]);
        i = i + 1;
    }
    assert(value@.take(i as int) =~= value@);
    rendered
}

/// Renders a name given as the platform's raw bytes for display: UTF-8 as
/// text with control characters escaped, anything else byte by byte.
pub fn render_os(value: &[u8]) -> (rendered: String)
    ensures
        rendered@ == rendered_os(value@),
{
    match utf8_text(value) {
        Some(text) => render_text(text),
        None => render_non_utf8(value),
    }
}

/// Renders a path given as the platform's raw bytes for display.
pub fn render_path(path: &[u8]) -> (rendered: String)
    ensures
        rendered@ == rendered_os(path@),
{
    render_os(path)
}

/// The decimal digits of a number, without leading zeros.
pub open spec fn decimal(n: nat) -> Seq<char>
    decreases n,
{
    if n < 10 {
        seq![hex_digit_lower(n)]
    } else {
        decimal(n / 10).push(hex_digit_lower(n % 10))
    }
}

/// Appends the decimal digits of a number.
pub fn push_decimal(out: &mut String, n: usize)
    ensures
        final(out)@ == old(out)@ + decimal(n as nat),
    decreases n,
{
    if n >= 10 {
        push_decimal(out, n / 10);
    }
    push_char(out, hex_char((n % 10) as u32));
    assert(final(out)@ =~= old(out)@ + decimal(n as nat));
}

/// A text with no control character in it.
pub open spec fn free_of_controls(s: Seq<char>) -> bool {
    forall|i: int| 0 <= i < s.len() ==> !is_control(#[trigger] s[i])
}

proof fn lemma_concat_free_of_controls(a: Seq<char>, b: Seq<char>)
    requires
        free_of_controls(a),
        free_of_controls(b),
    ensures
        free_of_controls(a + b),
{
    assert forall|i: int| 0 <= i < (a + b).len() implies !is_control(#[trigger] (a + b)[i]) by {
        if i < a.len() {
            assert((a + b)[i] == a[i]);
        } else {
            assert((a + b)[i] == b[i - a.len()]);
        }
    }
}

proof fn lemma_lower_hex_free_of_controls(n: nat)
    ensures
        free_of_controls(lower_hex(n)),
    decreases n,
{
    if n >= 16 {
        lemma_lower_hex_free_of_controls(n / 16);
        lemma_concat_free_of_controls(lower_hex(n / 16), seq![hex_digit_lower(n % 16)]);
        assert(lower_hex(n) =~= lower_hex(n / 16) + seq![hex_digit_lower(n % 16)]);
    }
}

proof fn lemma_render_char_free_of_controls(c: char)
    ensures
        free_of_controls(render_char(c)),
{
    if is_control(c) && c != '\t' && c != '\r' && c != '\n' {
        lemma_lower_hex_free_of_controls(c as nat);
        lemma_concat_free_of_controls(seq!['\\', 'u', '{'], lower_hex(c as nat));
        lemma_concat_free_of_controls(seq!['\\', 'u', '{'] + lower_hex(c as nat), seq!['}']);
    }
}

/// Rendered text never holds a control character.
pub proof fn law_rendered_text_free_of_controls(s: Seq<char>)
    ensures
        free_of_controls(rendered_text(s)),
    decreases s.len(),
{
    if s.len() > 0 {
        law_rendered_text_free_of_controls(s.drop_last());
        lemma_render_char_free_of_controls(s.last());
        lemma_concat_free_of_controls(rendered_text(s.drop_last()), render_char(s.last()));
    }
}

proof fn lemma_rendered_bytes_free_of_controls(s: Seq<u8>)
    ensures
        free_of_controls(rendered_bytes(s)),
    decreases s.len(),
{
    if s.len() > 0 {
        lemma_rendered_bytes_free_of_controls(s.drop_last());
        lemma_concat_free_of_controls(rendered_bytes(s.drop_last()), render_byte(s.last()));
    }
}

/// Whatever bytes a name or path holds, its display form holds no control
/// character: what is printed cannot steer the terminal.
pub proof fn law_rendered_names_free_of_controls(name: Seq<u8>)
    ensures
        free_of_controls(rendered_os(name)),
{
    if valid_utf8(name) {
        law_rendered_text_free_of_controls(decode_utf8(name));
    } else {
        lemma_rendered_bytes_free_of_controls(name);
    }
}

/// Text without control characters is shown as it is.
pub proof fn law_plain_text_unchanged(s: Seq<char>)
    requires
        free_of_controls(s),
    ensures
        rendered_text(s) == s,
    decreases s.len(),
{
    if s.len() > 0 {
        assert(!is_control(s[s.len() - 1]));
        law_plain_text_unchanged(s.drop_last());
        assert(s.drop_last().push(s.last()) =~= s);
    }
}

proof fn lemma_rendered_bytes_front(s: Seq<u8>)
    requires
        s.len() > 0,
    ensures
        rendered_bytes(s) == render_byte(s[0]) + rendered_bytes(s.drop_first()),
    decreases s.len(),
{
    if s.len() == 1 {
        assert(s.drop_last() =~= Seq::<u8>::empty());
        assert(s.drop_first() =~= Seq::<u8>::empty());
        assert(rendered_bytes(s.drop_last()) =~= Seq::<char>::empty());
        assert(rendered_bytes(s.drop_first()) =~= Seq::<char>::empty());
        assert(rendered_bytes(s) =~= render_byte(s[0]) + rendered_bytes(s.drop_first()));
    } else {
        lemma_rendered_bytes_front(s.drop_last());
        assert(s.drop_last().drop_first() =~= s.drop_first().drop_last());
        assert(s.drop_first().last() == s.last());
        assert(rendered_bytes(s) =~= render_byte(s[0]) + rendered_bytes(s.drop_first()));
    }
}

proof fn lemma_render_byte_shape(b: u8)
    ensures
        render_byte(b).len() >= 1,
        (render_byte(b)[0] == '\\') == (b == 92 || b == 10 || b == 13 || b == 9 || !(0x20 <= b <= 0x7e)),
        render_byte(b)[0] != '\\' ==> render_byte(b).len() == 1 && render_byte(b)[0] == b as char,
        render_byte(b)[0] == '\\' ==> render_byte(b).len() >= 2,
        render_byte(b)[0] == '\\' && render_byte(b)[1] == 'x' ==> render_byte(b).len() == 4 && !(b == 92 || b == 10 || b == 13 || b == 9 || (0x20 <= b <= 0x7e)),
        render_byte(b)[0] == '\\' && render_byte(b)[1] != 'x' ==> render_byte(b).len() == 2,
{
}

proof fn lemma_hex_digit_upper_injective(a: nat, b: nat)
    requires
        a < 16,
        b < 16,
        hex_digit_upper(a) == hex_digit_upper(b),
    ensures
        a == b,
{
}

proof fn lemma_render_byte_prefix_free(x: u8, y: u8, r: Seq<char>)
    requires
        render_byte(x).len() <= r.len(),
        render_byte(y).len() <= r.len(),
        r.take(render_byte(x).len() as int) == render_byte(x),
        r.take(render_byte(y).len() as int) == render_byte(y),
    ensures
        x == y,
{
    lemma_render_byte_shape(x);
    lemma_render_byte_shape(y);
    let tx = render_byte(x);
    let ty = render_byte(y);
    assert(tx[0] == r[0]);
    assert(ty[0] == r[0]);
    if r[0] != '\\' {
        assert((x as char) == (y as char));
    } else {
        assert(tx[1] == r[1]);
        assert(ty[1] == r[1]);
        if r[1] == 'x' {
            assert(tx[2] == r[2] && ty[2] == r[2]);
            assert(tx[3] == r[3] && ty[3] == r[3]);
            lemma_hex_digit_upper_injective((x / 16) as nat, (y / 16) as nat);
            lemma_hex_digit_upper_injective((x % 16) as nat, (y % 16) as nat);
        }
    }
}

/// Different byte strings are shown differently when rendered byte by byte.
pub proof fn law_byte_rendering_injective(a: Seq<u8>, b: Seq<u8>)
    requires
        rendered_bytes(a) == rendered_bytes(b),
    ensures
        a == b,
    decreases a.len(),
{
    if a.len() == 0 || b.len() == 0 {
        if a.len() > 0 {
            lemma_rendered_bytes_front(a);
            lemma_render_byte_shape(a[0]);
        }
        if b.len() > 0 {
            lemma_rendered_bytes_front(b);
            lemma_render_byte_shape(b[0]);
        }
        assert(a =~= b);
    } else {
        lemma_rendered_bytes_front(a);
        lemma_rendered_bytes_front(b);
        let r = rendered_bytes(a);
        let ta = render_byte(a[0]);
        let tb = render_byte(b[0]);
        assert(r.take(ta.len() as int) =~= ta);
        assert(r.take(tb.len() as int) =~= tb);
        lemma_render_byte_prefix_free(a[0], b[0], r);
        assert(rendered_bytes(a.drop_first()) =~= r.skip(ta.len() as int));
        assert(rendered_bytes(b.drop_first()) =~= r.skip(tb.len() as int));
        law_byte_rendering_injective(a.drop_first(), b.drop_first());
        assert(a =~= seq![a[0]] + a.drop_first());
        assert(b =~= seq![b[0]] + b.drop_first());
    }
}

/// Names that are not UTF-8 stay apart when shown.
pub proof fn law_non_utf8_names_stay_distinct(a: Seq<u8>, b: Seq<u8>)
    requires
        !valid_utf8(a),
        !valid_utf8(b),
        rendered_os(a) == rendered_os(b),
    ensures
        a == b,
{
    law_byte_rendering_injective(a, b);
}

/// The value of an upper-case hexadecimal digit (0 for any other character).
pub open spec fn hex_value(c: char) -> nat {
    let v = c as u32;
    if 48 <= v <= 57 {
        (v - 48) as nat
    } else if 65 <= v <= 70 {
        (v - 55) as nat
    } else {
        0
    }
}

/// Rendered bytes read back: a backslash and a second backslash is a
/// backslash byte, a backslash and `n`, `r` or `t` is a newline, carriage
/// return or tab, a backslash, `x` and two hexadecimal digits is that byte, and
/// any other character is the byte of its code.
pub open spec fn unescaped(s: Seq<char>) -> Seq<u8>
    decreases s.len(),
{
    if s.len() == 0 {
        Seq::empty()
    } else if s[0] == '\\' && s.len() >= 2 && s[1] == '\\' {
        seq![92u8] + unescaped(s.skip(2))
    } else if s[0] == '\\' && s.len() >= 2 && s[1] == 'n' {
        seq![10u8] + unescaped(s.skip(2))
    } else if s[0] == '\\' && s.len() >= 2 && s[1] == 'r' {
        seq![13u8] + unescaped(s.skip(2))
    } else if s[0] == '\\' && s.len() >= 2 && s[1] == 't' {
        seq![9u8] + unescaped(s.skip(2))
    } else if s[0] == '\\' && s.len() >= 4 && s[1] == 'x' {
        seq![(16 * hex_value(s[2]) + hex_value(s[3])) as u8] + unescaped(s.skip(4))
    } else {
        seq![s[0] as u8] + unescaped(s.skip(1))
    }
}

proof fn lemma_hex_value_of_digit(d: nat)
    requires
        d < 16,
    ensures
        hex_value(hex_digit_upper(d)) == d,
{
}

proof fn lemma_unescape_render_byte(x: u8, r: Seq<char>)
    ensures
        unescaped(render_byte(x) + r) == seq![x] + unescaped(r),
{
    let t = render_byte(x) + r;
    lemma_render_byte_shape(x);
    let k = render_byte(x).len() as int;
    assert(t.skip(k) =~= r);
    assert(t[0] == render_byte(x)[0]);
    if render_byte(x)[0] == '\\' {
        assert(t[1] == render_byte(x)[1]);
        if render_byte(x)[1] == 'x' {
            assert(t[2] == render_byte(x)[2]);
            assert(t[3] == render_byte(x)[3]);
            lemma_hex_value_of_digit((x / 16) as nat);
            lemma_hex_value_of_digit((x % 16) as nat);
            assert(16 * hex_value(t[2]) + hex_value(t[3]) == x);
        }
    } else {
        assert((x as char) as u8 == x);
    }
    assert(unescaped(t) =~= seq![x] + unescaped(r));
}

/// Reading back what bytes are rendered as gives the bytes again.
pub proof fn law_byte_rendering_reads_back(b: Seq<u8>)
    ensures
        unescaped(rendered_bytes(b)) == b,
    decreases b.len(),
{
    if b.len() == 0 {
        assert(unescaped(rendered_bytes(b)) =~= b);
    } else {
        lemma_rendered_bytes_front(b);
        lemma_unescape_render_byte(b[0], rendered_bytes(b.drop_first()));
        law_byte_rendering_reads_back(b.drop_first());
        assert(b =~= seq![b[0]] + b.drop_first());
    }
}

/// A name that is not UTF-8 can be read back from how it is shown.
pub proof fn law_non_utf8_names_read_back(name: Seq<u8>)
    requires
        !valid_utf8(name),
    ensures
        unescaped(rendered_os(name)) == name,
{
    law_byte_rendering_reads_back(name);
}

} // verus!
