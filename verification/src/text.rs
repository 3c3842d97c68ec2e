use vstd::prelude::*;
use vstd::utf8::{decode_utf8, encode_scalar, encode_utf8, valid_utf8};

verus! {

/// What `String::from_utf8_lossy` makes of a byte sequence.
pub uninterp spec fn utf8_lossy(bytes: Seq<u8>) -> Seq<char>;

/// Calls `String::from_utf8_lossy`: decodes `bytes` as UTF-8, putting U+FFFD in place of
/// each invalid sequence. Its documentation says valid input is returned as it is, so
/// the contract states that case exactly and names the result otherwise.
#[verifier::external_body]
pub(crate) fn lossy_string(bytes: &[u8]) -> (s: String)
    ensures
        s@ == utf8_lossy(bytes@),
        valid_utf8(bytes@) ==> s@ == decode_utf8(bytes@),
{
    String::from_utf8_lossy(bytes).into_owned()
}

/// Calls `String::push`, which appends one `char`.
#[verifier::external_body]
pub(crate) fn push_char(s: &mut String, c: char)
    ensures
        final(s)@ == old(s)@.push(c),
{
    s.push(c);
}


/// The ASCII digit for `d` (0 to 9).
pub open spec fn digit_char(d: int) -> char {
    (d + 48) as char
}

/// The decimal digits of `n`, most significant first, without leading zeros.
pub open spec fn decimal(n: nat) -> Seq<char>
    decreases n,
{
    if n < 10 {
        seq![digit_char(n as int)]
    } else {
        decimal(n / 10).push(digit_char((n % 10) as int))
    }
}

/// Every number has at least one digit.
pub proof fn lemma_decimal_nonempty(n: nat)
    ensures
        decimal(n).len() >= 1,
    decreases n,
{
    if n >= 10 {
        lemma_decimal_nonempty(n / 10);
    }
}

/// The digit character for a value below ten.
pub fn digit_of(d: u128) -> (c: char)
    requires
        d < 10,
    ensures
        c == digit_char(d as int),
{
    let b: u8 = d as u8 + 48u8;
    b as char
}

/// The decimal digits of `n`.
pub fn decimal_digits(n: u128) -> (ds: Vec<char>)
    ensures
        ds@ == decimal(n as nat),
{
    let mut rev: Vec<char> = Vec::new();
    let ghost mut tail: Seq<char> = Seq::empty();
    let mut v = n;
    while v >= 10
        invariant
            decimal(n as nat) == decimal(v as nat) + tail,
            rev@.len() == tail.len(),
            forall|i: int| #![trigger rev@[i]] 0 <= i < rev@.len() ==> rev@[i] == tail[tail.len() - 1 - i],
        decreases v,
    {
        let d = digit_of(v % 10);
        proof {
            let t2 = seq![d] + tail;
            assert(decimal(v as nat) == decimal((v / 10) as nat).push(d));
            assert(decimal((v / 10) as nat).push(d) + tail =~= decimal((v / 10) as nat) + t2);
            tail = t2;
        }
        rev.push(d);
        v = v / 10;
        proof {
            assert forall|i: int| #![trigger rev@[i]] 0 <= i < rev@.len() implies rev@[i] == tail[tail.len() - 1 - i] by {
                if i < rev@.len() - 1 {
                    assert(tail[tail.len() - 1 - i] == tail.drop_first()[tail.len() - 2 - i]);
                }
            }
        }
    }
    let d = digit_of(v);
    proof {
        let t2 = seq![d] + tail;
        assert(decimal(v as nat) == seq![d]);
        tail = t2;
    }
    rev.push(d);
    proof {
        assert forall|i: int| #![trigger rev@[i]] 0 <= i < rev@.len() implies rev@[i] == tail[tail.len() - 1 - i] by {
            if i < rev@.len() - 1 {
                assert(tail[tail.len() - 1 - i] == tail.drop_first()[tail.len() - 2 - i]);
            }
        }
        assert(decimal(n as nat) =~= tail);
    }
    let mut ds: Vec<char> = Vec::new();
    let mut k = rev.len();
    while k > 0
        invariant
            k <= rev@.len(),
            rev@.len() == tail.len(),
            forall|i: int| #![trigger rev@[i]] 0 <= i < rev@.len() ==> rev@[i] == tail[tail.len() - 1 - i],
            ds@ == tail.subrange(0, tail.len() - k),
        decreases k,
    {
        k -= 1;
        ds.push(rev[k]);
        proof {
            assert(rev@[k as int] == tail[tail.len() - 1 - k]);
            assert(ds@ =~= tail.subrange(0, tail.len() - k));
        }
    }
    assert(tail.subrange(0, tail.len() as int) =~= tail);
    ds
}

/// Appends the chars of `cs` to `s`.
pub(crate) fn push_chars(s: &mut String, cs: &Vec<char>)
    ensures
        final(s)@ == old(s)@ + cs@,
{
    let mut k: usize = 0;
    while k < cs.len()
        invariant
            k <= cs@.len(),
            s@ == old(s)@ + cs@.subrange(0, k as int),
        decreases cs@.len() - k,
    {
        push_char(s, cs[k]);
        k += 1;
        assert(s@ =~= old(s)@ + cs@.subrange(0, k as int));
    }
    assert(cs@.subrange(0, cs@.len() as int) =~= cs@);
}

/// Encoding a sequence with one more `char` appends that `char`'s encoding.
pub proof fn lemma_encode_utf8_push(cs: Seq<char>, c: char)
    ensures
        encode_utf8(cs.push(c)) == encode_utf8(cs) + encode_scalar(c as u32),
    decreases cs.len(),
{
    if cs.len() == 0 {
        assert(cs.push(c).drop_first() =~= Seq::<char>::empty());
        assert(encode_utf8(Seq::<char>::empty()) == Seq::<u8>::empty());
        assert(encode_utf8(cs.push(c)) =~= encode_scalar(c as u32));
    } else {
        lemma_encode_utf8_push(cs.drop_first(), c);
        assert(cs.push(c).drop_first() =~= cs.drop_first().push(c));
        assert(encode_utf8(cs.push(c)) =~= encode_scalar(cs[0] as u32) + (encode_utf8(
            cs.drop_first(),
        ) + encode_scalar(c as u32)));
    }
}

/// The last byte of a `char`'s encoding is `/` exactly for `/` itself.
pub proof fn lemma_last_byte_slash(c: char)
    ensures
        encode_scalar(c as u32).len() > 0,
        (encode_scalar(c as u32).last() == 47u8) == (c == '/'),
{
    let v = c as u32;
    assert(vstd::utf8::is_scalar(v)) by {
        vstd::utf8::char_is_scalar(c);
    }
    if v <= 0x7F {
        assert((v & 0x7F) as u8 == 47u8 <==> v == 47u32) by (bit_vector)
            requires
                v <= 0x7F,
        ;
    } else {
        assert(forall|x: u32| (0x80u8 | (x & 0x3F) as u8) != 47u8) by (bit_vector);
    }
}

/// Whether the string's last `char` is `/`.
pub fn ends_with_slash(s: &String) -> (r: bool)
    ensures
        r == (s@.len() > 0 && s@.last() == '/'),
{
    let b = s.as_str().as_bytes();
    let n = b.len();
    proof {
        if s@.len() > 0 {
            let cs = s@.drop_last();
            assert(cs.push(s@.last()) =~= s@);
            lemma_encode_utf8_push(cs, s@.last());
            lemma_last_byte_slash(s@.last());
        } else {
            assert(encode_utf8(s@) == Seq::<u8>::empty());
        }
    }
    n > 0 && b[n - 1] == 47u8
}

} // verus!
