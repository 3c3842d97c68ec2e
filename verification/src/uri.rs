use vstd::prelude::*;
use crate::text::push_char;

verus! {

/// Bytes that stand for themselves in a `file://` URI: ASCII letters and digits and `/-_.~`.
pub open spec fn uri_safe(b: u8) -> bool {
    ||| 48u8 <= b <= 57u8
    ||| 65u8 <= b <= 90u8
    ||| 97u8 <= b <= 122u8
    ||| b == 47u8
    ||| b == 45u8
    ||| b == 95u8
    ||| b == 46u8
    ||| b == 126u8
}

/// The upper-case hexadecimal digit for `d` (0 to 15).
pub open spec fn hex_upper(d: int) -> char {
    if d < 10 {
        (d + 48) as char
    } else {
        (d + 55) as char
    }
}

/// How one path byte is written in a URI: as itself, or as `%` and two hex digits.
pub open spec fn uri_piece(b: u8) -> Seq<char> {
    if uri_safe(b) {
        seq![b as char]
    } else {
        seq!['%', hex_upper(b as int / 16), hex_upper(b as int % 16)]
    }
}

/// The path bytes written for a URI.
pub open spec fn uri_escaped(p: Seq<u8>) -> Seq<char>
    decreases p.len(),
{
    if p.len() == 0 {
        Seq::empty()
    } else {
        uri_escaped(p.drop_last()) + uri_piece(p.last())
    }
}

/// The `file://` URI of a path.
pub open spec fn file_uri_text(p: Seq<u8>) -> Seq<char> {
    seq!['f', 'i', 'l', 'e', ':', '/', '/'] + uri_escaped(p)
}

/// The value of a hexadecimal digit, in either case.
pub open spec fn hex_value(c: char) -> int {
    if '0' <= c && c <= '9' {
        c as int - 48
    } else if 'A' <= c && c <= 'F' {
        c as int - 55
    } else {
        c as int - 87
    }
}

/// Percent-decoding, as a URI is read back: `%` and two hex digits give the byte they
/// spell, and any other character gives its own code.
pub open spec fn percent_decode(s: Seq<char>) -> Seq<u8>
    decreases s.len(),
{
    if s.len() == 0 {
        Seq::empty()
    } else if s[0] == '%' && s.len() >= 3 {
        seq![(16 * hex_value(s[1]) + hex_value(s[2])) as u8] + percent_decode(s.subrange(3, s.len() as int))
    } else {
        seq![s[0] as u8] + percent_decode(s.subrange(1, s.len() as int))
    }
}

/// Escaping a path, read from its first byte on.
proof fn lemma_escaped_front(p: Seq<u8>)
    requires
        p.len() >= 1,
    ensures
        uri_escaped(p) == uri_piece(p[0]) + uri_escaped(p.subrange(1, p.len() as int)),
    decreases p.len(),
{
    let rest = p.subrange(1, p.len() as int);
    if p.len() == 1 {
        assert(p.drop_last() =~= Seq::<u8>::empty());
        assert(rest =~= Seq::<u8>::empty());
        assert(uri_escaped(p.drop_last()) =~= Seq::<char>::empty());
        assert(uri_escaped(rest) =~= Seq::<char>::empty());
        assert(p.last() == p[0]);
        assert(uri_escaped(p) =~= uri_piece(p[0]));
    } else {
        let d = p.drop_last();
        lemma_escaped_front(d);
        assert(d[0] == p[0]);
        assert(rest.drop_last() =~= d.subrange(1, d.len() as int));
        assert(rest.last() == p.last());
        assert(uri_escaped(rest) == uri_escaped(rest.drop_last()) + uri_piece(rest.last()));
        assert(uri_escaped(p) =~= uri_piece(p[0]) + uri_escaped(rest));
    }
}

/// Reading back one escaped byte, followed by anything, gives that byte first.
proof fn lemma_decode_piece(b: u8, rest: Seq<char>)
    ensures
        percent_decode(uri_piece(b) + rest) == seq![b] + percent_decode(rest),
{
    let s = uri_piece(b) + rest;
    if uri_safe(b) {
        assert(s[0] == b as char);
        assert(b != 37u8);
        assert(s.subrange(1, s.len() as int) =~= rest);
        assert((b as char) as u8 == b);
    } else {
        let hi = b as int / 16;
        let lo = b as int % 16;
        assert(s[0] == '%');
        assert(s[1] == hex_upper(hi));
        assert(s[2] == hex_upper(lo));
        assert(hex_value(hex_upper(hi)) == hi);
        assert(hex_value(hex_upper(lo)) == lo);
        assert(16 * hi + lo == b as int);
        assert(s.subrange(3, s.len() as int) =~= rest);
    }
}

/// Reading the escaped path back with percent-decoding gives the path's bytes.
pub proof fn lemma_uri_decodes(p: Seq<u8>)
    ensures
        percent_decode(uri_escaped(p)) == p,
    decreases p.len(),
{
    if p.len() == 0 {
        assert(uri_escaped(p) =~= Seq::<char>::empty());
    } else {
        let rest = p.subrange(1, p.len() as int);
        lemma_escaped_front(p);
        lemma_decode_piece(p[0], uri_escaped(rest));
        lemma_uri_decodes(rest);
        assert(seq![p[0]] + rest =~= p);
    }
}

/// A path made of letters, digits and `/-_.~` is written as it stands: each byte as the
/// very same character.
pub proof fn lemma_uri_plain(p: Seq<u8>)
    requires
        forall|i: int| 0 <= i < p.len() ==> uri_safe(#[trigger] p[i]),
    ensures
        uri_escaped(p) == p.map_values(|b: u8| b as char),
    decreases p.len(),
{
    if p.len() == 0 {
        assert(uri_escaped(p) =~= p.map_values(|b: u8| b as char));
    } else {
        let d = p.drop_last();
        assert forall|i: int| 0 <= i < d.len() implies uri_safe(#[trigger] d[i]) by {
            assert(d[i] == p[i]);
        }
        lemma_uri_plain(d);
        assert(uri_safe(p[p.len() - 1]));
        assert(uri_escaped(p) =~= p.map_values(|b: u8| b as char));
    }
}

/// A `file://` URI starts with `file://`, and what follows reads back, by percent-decoding,
/// as the path's bytes.
pub proof fn lemma_file_uri_decodes(p: Seq<u8>)
    ensures
        file_uri_text(p).subrange(0, 7) == seq!['f', 'i', 'l', 'e', ':', '/', '/'],
        percent_decode(file_uri_text(p).subrange(7, file_uri_text(p).len() as int)) == p,
{
    let t = file_uri_text(p);
    assert(t.subrange(0, 7) =~= seq!['f', 'i', 'l', 'e', ':', '/', '/']);
    assert(t.subrange(7, t.len() as int) =~= uri_escaped(p));
    lemma_uri_decodes(p);
}

fn hex_digit(d: u8) -> (c: char)
    requires
        d < 16,
    ensures
        c == hex_upper(d as int),
{
    if d < 10 {
        (d + 48u8) as char
    } else {
        (d + 55u8) as char
    }
}

/// The `file://` URI of a path, as file managers take it.
pub fn file_uri(path: &[u8]) -> (s: String)
    ensures
        s@ == file_uri_text(path@),
{
    let mut s = String::new();
    push_char(&mut s, 'f');
    push_char(&mut s, 'i');
    push_char(&mut s, 'l');
    push_char(&mut s, 'e');
    push_char(&mut s, ':');
    push_char(&mut s, '/');
    push_char(&mut s, '/');
    let mut i: usize = 0;
    while i < path.len()
        invariant
            i <= path@.len(),
            s@ == seq!['f', 'i', 'l', 'e', ':', '/', '/'] + uri_escaped(path@.subrange(0, i as int)),
        decreases path@.len() - i,
    {
        let b = path[i];
        let ghost before = s@;
        let safe = (48u8 <= b && b <= 57u8) || (65u8 <= b && b <= 90u8) || (97u8 <= b && b <= 122u8)
            || b == 47u8 || b == 45u8 || b == 95u8 || b == 46u8 || b == 126u8;
        if safe {
            push_char(&mut s, b as char);
        } else {
            push_char(&mut s, '%');
            push_char(&mut s, hex_digit(b / 16));
            push_char(&mut s, hex_digit(b % 16));
        }
        proof {
            let pre = path@.subrange(0, i + 1);
            assert(pre.drop_last() =~= path@.subrange(0, i as int));
            assert(pre.last() == b);
            assert(s@ =~= before + uri_piece(b));
        }
        i += 1;
    }
    assert(path@.subrange(0, path@.len() as int) =~= path@);
    s
}

} // verus!
