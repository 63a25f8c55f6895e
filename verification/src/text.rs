use vstd::prelude::*;
use vstd::utf8::*;

verus! {

/// The ASCII bytes the markup is written with.
pub const TAB: u8 = 9;
pub const LF: u8 = 10;
pub const CR: u8 = 13;
pub const SPACE: u8 = 32;
pub const QUOTE: u8 = 34;
pub const HASH: u8 = 35;
pub const LPAREN: u8 = 40;
pub const RPAREN: u8 = 41;
pub const STAR: u8 = 42;
pub const DASH: u8 = 45;
pub const DOT: u8 = 46;
pub const SLASH: u8 = 47;
pub const COLON: u8 = 58;
pub const EQUALS: u8 = 61;
pub const GT: u8 = 62;
pub const LBRACKET: u8 = 91;
pub const BACKSLASH: u8 = 92;
pub const RBRACKET: u8 = 93;
pub const UNDERSCORE: u8 = 95;
pub const BACKTICK: u8 = 96;
pub const LBRACE: u8 = 123;
pub const PIPE: u8 = 124;
pub const RBRACE: u8 = 125;
pub const TILDE: u8 = 126;

/// The bytes of a string: the UTF-8 encoding of its characters.
pub(crate) fn str_bytes(s: &str) -> (bytes: &[u8])
    ensures
        bytes@ == encode_utf8(s@),
        valid_utf8(bytes@),
{
    proof {
        encode_utf8_valid_utf8(s@);
    }
    s.as_bytes()
}

/// The characters `String::from_utf8_lossy` reads from `bytes`: a function
/// of the bytes alone.
pub uninterp spec fn lossy_utf8(bytes: Seq<u8>) -> Seq<char>;

/// `String::from_utf8_lossy`, made owned. The result is named; the
/// documentation promises that bytes which are valid UTF-8 come back as the
/// same text. Of other input, which the function repairs with replacement
/// characters, nothing more is claimed.
#[verifier::external_body]
pub(crate) fn string_from(bytes: &[u8]) -> (s: String)
    ensures
        s@ == lossy_utf8(bytes@),
        valid_utf8(bytes@) ==> encode_utf8(s@) == bytes@,
{
    String::from_utf8_lossy(bytes).into_owned()
}

/// Whether `s` begins with the two bytes `pair`.
pub open spec fn starts_with_pair(s: Seq<u8>, pair: Seq<u8>) -> bool {
    s.len() >= 2 && pair.len() == 2 && s[0] == pair[0] && s[1] == pair[1]
}

pub(crate) fn slice_starts_with(s: &[u8], pair: [u8; 2]) -> (r: bool)
    ensures
        r == starts_with_pair(s@, pair@),
{
    s.len() >= 2 && s[0] == pair[0] && s[1] == pair[1]
}

/// Appends the bytes of `src` to `dst`.
pub(crate) fn push_bytes(dst: &mut Vec<u8>, src: &[u8])
    ensures
        final(dst)@ == old(dst)@ + src@,
{
    let ghost start = dst@;
    let mut i: usize = 0;
    while i < src.len()
        invariant
            i <= src.len(),
            dst@ == start + src@.take(i as int),
        decreases src.len() - i,
    {
        dst.push(src[i]);
        i = i + 1;
        assert(dst@ =~= start + src@.take(i as int));
    }
    assert(src@.take(i as int) =~= src@);
}

/// Bytes that are all ASCII are valid UTF-8.
pub proof fn lemma_ascii_valid(b: Seq<u8>)
    requires
        forall|i: int| 0 <= i < b.len() ==> #[trigger] b[i] < 128u8,
    ensures
        valid_utf8(b),
{
    assert(partial_valid_utf8(b, 0)) by {
        assert(b.subrange(0, 0) =~= Seq::<u8>::empty());
    }
    assert forall|i: int| 0 <= 0 <= i < b.len() <= b.len() implies #[trigger] is_leading_byte_width_1(b[i]) by {
        assert(b[i] < 128u8);
    }
    partial_valid_utf8_extend_ascii_block(b, 0, b.len() as int);
    assert(b.subrange(0, b.len() as int) =~= b);
}

/// Dropping a leading ASCII byte keeps UTF-8 valid.
pub proof fn lemma_valid_drop_ascii(b: Seq<u8>)
    requires
        valid_utf8(b),
        b.len() > 0,
        b[0] < 128u8,
    ensures
        valid_utf8(b.drop_first()),
{
    assert(pop_first_scalar(b) =~= b.drop_first());
}

/// Two valid pieces joined are valid.
pub proof fn lemma_valid_concat(a: Seq<u8>, b: Seq<u8>)
    requires
        valid_utf8(a),
        valid_utf8(b),
    ensures
        valid_utf8(a + b),
{
    valid_utf8_concat(a, b);
}

/// The decimal digits of `n`.
pub open spec fn decimal(n: nat) -> Seq<u8>
    decreases n,
{
    if n < 10 {
        seq![(48 + n) as u8]
    } else {
        decimal(n / 10).push((48 + n % 10) as u8)
    }
}

pub proof fn lemma_decimal_ascii(n: nat)
    ensures
        forall|i: int| 0 <= i < decimal(n).len() ==> #[trigger] decimal(n)[i] < 128u8,
    decreases n,
{
    if n >= 10 {
        lemma_decimal_ascii(n / 10);
        let d = decimal(n / 10);
        assert(n % 10 < 10);
        assert forall|i: int| 0 <= i < decimal(n).len() implies #[trigger] decimal(n)[i] < 128u8 by {
            if i < d.len() {
                assert(decimal(n)[i] == d[i]);
            }
        }
    }
}

pub(crate) fn decimal_bytes(n: u128) -> (digits: Vec<u8>)
    ensures
        digits@ == decimal(n as nat),
        valid_utf8(digits@),
    decreases n,
{
    proof {
        lemma_decimal_ascii(n as nat);
        lemma_ascii_valid(decimal(n as nat));
    }
    if n < 10 {
        let mut digits: Vec<u8> = Vec::new();
        digits.push((48 + n) as u8);
        assert(digits@ =~= seq![(48 + n) as u8]);
        digits
    } else {
        let mut digits = decimal_bytes(n / 10);
        digits.push((48 + n % 10) as u8);
        digits
    }
}

} // verus!
