use vstd::prelude::*;
use vstd::utf8::*;

verus! {

/// The text that `String::from_utf8_lossy` makes of `bytes`: their UTF-8
/// decoding, where each invalid sequence is replaced by U+FFFD.
pub uninterp spec fn utf8_lossy(bytes: Seq<u8>) -> Seq<char>;

/// Calls `String::from_utf8_lossy` and takes ownership of the result.
/// Claimed of it: the result is `utf8_lossy` of the bytes, and for bytes that
/// are valid UTF-8 it is their plain decoding.
#[verifier::external_body]
pub(crate) fn text_from_bytes(bytes: &[u8]) -> (s: String)
    ensures
        s@ == utf8_lossy(bytes@),
        valid_utf8(bytes@) ==> s@ == decode_utf8(bytes@),
{
    String::from_utf8_lossy(bytes).into_owned()
}

/// Calls `String::push`. Claimed of it: the character is appended at the end.
#[verifier::external_body]
pub(crate) fn push_char(s: &mut String, c: char)
    ensures
        final(s)@ == old(s)@.push(c),
{
    s.push(c)
}

/// The decimal digit character for `d < 10`.
pub open spec fn digit_char(d: nat) -> char {
    ((d + 48) as u8) as char
}

/// The decimal notation of `n`, without leading zeros.
pub open spec fn decimal(n: nat) -> Seq<char>
    decreases n,
{
    if n < 10 {
        seq![digit_char(n)]
    } else {
        decimal(n / 10).push(digit_char(n % 10))
    }
}

/// `n` in decimal notation, left-padded with zeros to at least `width` characters.
pub open spec fn zero_padded(n: nat, width: nat) -> Seq<char> {
    let d = decimal(n);
    if d.len() >= width {
        d
    } else {
        Seq::new((width - d.len()) as nat, |i: int| '0') + d
    }
}

/// Appends the decimal notation of `n` to `out`.
pub fn push_decimal(out: &mut String, n: usize)
    ensures
        final(out)@ == old(out)@ + decimal(n as nat),
    decreases n,
{
    if n >= 10 {
        push_decimal(out, n / 10);
    }
    let d: u8 = (n % 10) as u8;
    push_char(out, (d + 48) as char);
    proof {
        assert(((d + 48) as u8) as char == digit_char((n % 10) as nat));
    }
}

/// The decimal notation of `n` as a new string.
pub fn decimal_string(n: usize) -> (s: String)
    ensures
        s@ == decimal(n as nat),
{
    let mut s = String::new();
    push_decimal(&mut s, n);
    proof {
        assert(s@ =~= Seq::<char>::empty() + decimal(n as nat));
    }
    s
}

/// Appends `n` in decimal, left-padded with zeros to `width` characters.
pub fn push_zero_padded(out: &mut String, n: usize, width: usize)
    ensures
        final(out)@ == old(out)@ + zero_padded(n as nat, width as nat),
{
    let digits = decimal_string(n);
    let len = digits.as_str().unicode_len();
    let ghost start = out@;
    if len < width {
        let mut k: usize = 0;
        while k < width - len
            invariant
                k <= width - len,
                len == decimal(n as nat).len(),
                len < width,
                out@ =~= start + Seq::new(k as nat, |i: int| '0'),
            decreases width - len - k,
        {
            push_char(out, '0');
            k = k + 1;
        }
    }
    out.append(digits.as_str());
}

/// In valid UTF-8, the byte after an ASCII byte starts a character (or the
/// bytes end there).
pub proof fn lemma_after_ascii(src: Seq<u8>, k: int)
    requires
        valid_utf8(src),
        0 <= k < src.len(),
        src[k] < 128,
    ensures
        k + 1 == src.len() || !is_continuation_byte(src[k + 1]),
{
    is_char_boundary_iff_not_is_continuation_byte(src, k);
    valid_utf8_split(src, k);
    let u = src.subrange(k, src.len() as int);
    assert(u[0] == src[k]);
    assert(length_of_first_scalar(u) == 1);
    let rest = pop_first_scalar(u);
    assert(rest =~= src.subrange(k + 1, src.len() as int));
    if k + 1 < src.len() {
        assert(valid_utf8(rest));
        assert(rest[0] == src[k + 1]);
        assert(valid_first_scalar(rest));
    }
}

/// The bytes between two character starts of valid UTF-8 are valid UTF-8.
pub proof fn lemma_slice_valid(src: Seq<u8>, a: int, b: int)
    requires
        valid_utf8(src),
        0 <= a <= b <= src.len(),
        a == src.len() || !is_continuation_byte(src[a]),
        b == src.len() || !is_continuation_byte(src[b]),
    ensures
        valid_utf8(src.subrange(a, b)),
{
    is_char_boundary_start_end_of_seq(src);
    if a < src.len() {
        is_char_boundary_iff_not_is_continuation_byte(src, a);
    }
    valid_utf8_split(src, a);
    let u = src.subrange(a, src.len() as int);
    is_char_boundary_start_end_of_seq(u);
    if b < src.len() {
        assert(u[b - a] == src[b]);
        is_char_boundary_iff_not_is_continuation_byte(u, b - a);
    }
    valid_utf8_split(u, b - a);
    assert(u.subrange(0, b - a) =~= src.subrange(a, b));
}

/// The characters of ASCII bytes, one per byte.
pub open spec fn ascii_chars(bytes: Seq<u8>) -> Seq<char> {
    bytes.map_values(|b: u8| b as char)
}

/// ASCII bytes are valid UTF-8 and decode to one character per byte.
pub proof fn lemma_ascii_decode(bytes: Seq<u8>)
    requires
        forall|i: int| 0 <= i < bytes.len() ==> bytes[i] < 128,
    ensures
        valid_utf8(bytes),
        decode_utf8(bytes) == ascii_chars(bytes),
    decreases bytes.len(),
{
    if bytes.len() > 0 {
        assert(length_of_first_scalar(bytes) == 1);
        let rest = pop_first_scalar(bytes);
        assert(rest =~= bytes.subrange(1, bytes.len() as int));
        lemma_ascii_decode(rest);
        let b0 = bytes[0];
        assert(b0 < 128 ==> (b0 & 0x7F) == b0) by (bit_vector);
        assert(valid_first_scalar(bytes));
        assert(decode_first_scalar(bytes) == b0 as u32);
        assert(ascii_chars(bytes) =~= seq![bytes[0] as char] + ascii_chars(rest));
    }
}

/// Valid UTF-8 that is not empty decodes to at least one character.
pub proof fn lemma_decode_nonempty(bytes: Seq<u8>)
    requires
        valid_utf8(bytes),
        bytes.len() > 0,
    ensures
        decode_utf8(bytes).len() >= 1,
{
}

/// Valid UTF-8 that starts and ends with the same ASCII byte decodes to that
/// character, the text between, and that character again.
pub proof fn lemma_decode_wrapped(bytes: Seq<u8>, q: u8)
    requires
        valid_utf8(bytes),
        bytes.len() >= 2,
        q < 128,
        bytes[0] == q,
        bytes[bytes.len() - 1] == q,
    ensures
        decode_utf8(bytes) == seq![q as char] + decode_utf8(bytes.subrange(1, bytes.len() - 1)) + seq![
            q as char,
        ],
{
    let n = bytes.len() as int;
    lemma_after_ascii(bytes, 0);
    is_char_boundary_iff_not_is_continuation_byte(bytes, 1);
    decode_utf8_split(bytes, 1);
    valid_utf8_split(bytes, 1);
    lemma_ascii_decode(bytes.subrange(0, 1));
    assert(ascii_chars(bytes.subrange(0, 1)) =~= seq![q as char]);
    let rest = bytes.subrange(1, n);
    assert(rest[n - 2] == q);
    is_char_boundary_iff_not_is_continuation_byte(rest, n - 2);
    decode_utf8_split(rest, n - 2);
    valid_utf8_split(rest, n - 2);
    let tail = rest.subrange(n - 2, n - 1);
    assert(tail =~= seq![q]);
    lemma_ascii_decode(tail);
    assert(ascii_chars(tail) =~= seq![q as char]);
    assert(rest.subrange(0, n - 2) =~= bytes.subrange(1, n - 1));
}

} // verus!
