//! Rendering a result path as a file URI, with a defined set of bytes
//! percent-encoded: ASCII controls and DEL, every non-ASCII byte, space,
//! double quote, angle brackets, question mark, backtick, braces and the
//! hash sign.  Paths travel as UTF-8 bytes; the output is pure ASCII.

use vstd::prelude::*;

verus! {

/// Bytes that are escaped in a rendered path.
pub open spec fn needs_escape(b: u8) -> bool {
    b <= 0x1F || b >= 0x7F || b == 0x20 || b == 0x22 || b == 0x3C || b == 0x3E || b == 0x3F
        || b == 0x60 || b == 0x7B || b == 0x7D || b == 0x23
}

/// Upper-case hexadecimal digit of a value below sixteen.
pub open spec fn hex_digit(n: u8) -> u8
    recommends
        n < 16,
{
    if n < 10 {
        (0x30 + n) as u8
    } else {
        (0x37 + n) as u8
    }
}

/// The rendering of one byte: itself, or a percent sign and two
/// hexadecimal digits.
pub open spec fn escaped_byte(b: u8) -> Seq<u8> {
    if needs_escape(b) {
        seq![0x25u8, hex_digit(b / 16), hex_digit(b % 16)]
    } else {
        seq![b]
    }
}

/// The percent-encoding of a byte sequence.
pub open spec fn percent_encoded(s: Seq<u8>) -> Seq<u8>
    decreases s.len(),
{
    if s.len() == 0 {
        Seq::empty()
    } else {
        percent_encoded(s.drop_last()) + escaped_byte(s.last())
    }
}

/// The bytes of "file://".
pub open spec fn uri_prefix() -> Seq<u8> {
    seq![0x66u8, 0x69u8, 0x6Cu8, 0x65u8, 0x3Au8, 0x2Fu8, 0x2Fu8]
}

/// A rendered path: the file URI scheme followed by the percent-encoded
/// path bytes.
pub open spec fn rendered_path(path: Seq<u8>) -> Seq<u8> {
    uri_prefix() + percent_encoded(path)
}

fn hex_digit_of(n: u8) -> (d: u8)
    requires
        n < 16,
    ensures
        d == hex_digit(n),
{
    if n < 10 {
        0x30 + n
    } else {
        0x37 + n
    }
}

/// Render the UTF-8 bytes of a canonical path as a file URI with the
/// escape set applied.  The result is ASCII.
pub fn format_path_for_terminal(path: &Vec<u8>) -> (uri: Vec<u8>)
    ensures
        uri@ == rendered_path(path@),
{
    let mut uri: Vec<u8> = Vec::new();
    uri.push(0x66);
    uri.push(0x69);
    uri.push(0x6C);
    uri.push(0x65);
    uri.push(0x3A);
    uri.push(0x2F);
    uri.push(0x2F);
    proof {
        assert(uri@ =~= uri_prefix());
    }
    let mut i: usize = 0;
    while i < path.len()
        invariant
            i <= path.len(),
            uri@ == uri_prefix() + percent_encoded(path@.take(i as int)),
        decreases path.len() - i,
    {
        let b = path[i];
        proof {
            assert(path@.take(i + 1).drop_last() =~= path@.take(i as int));
            assert(path@.take(i + 1).last() == path@[i as int]);
        }
        if b <= 0x1F || b >= 0x7F || b == 0x20 || b == 0x22 || b == 0x3C || b == 0x3E
            || b == 0x3F || b == 0x60 || b == 0x7B || b == 0x7D || b == 0x23 {
            uri.push(0x25);
            uri.push(hex_digit_of(b / 16));
            uri.push(hex_digit_of(b % 16));
        } else {
            uri.push(b);
        }
        proof {
            assert(uri@ =~= uri_prefix() + percent_encoded(path@.take(i + 1)));
        }
        i = i + 1;
    }
    proof {
        assert(path@.take(path@.len() as int) =~= path@);
    }
    uri
}

} // verus!
