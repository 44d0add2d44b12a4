use vstd::prelude::*;
use vstd::utf8::*;

verus! {

broadcast use vstd::utf8::encode_utf8_valid_utf8, vstd::utf8::encode_utf8_decode_utf8;

/// Calls `String::from_utf8` of std: it succeeds exactly on valid UTF-8,
/// and the string then holds the characters that the bytes encode.
#[verifier::external_body]
pub(crate) fn string_from_utf8(bytes: Vec<u8>) -> (text: Option<String>)
    ensures
        text is Some <==> valid_utf8(bytes@),
        text matches Some(s) ==> s@ == decode_utf8(bytes@),
{
    String::from_utf8(bytes).ok()
}

/// The characters that `String::from_utf8_lossy` makes of a byte string.
pub uninterp spec fn utf8_lossy(bytes: Seq<u8>) -> Seq<char>;

/// Calls `String::from_utf8_lossy` of std (and takes the string it holds):
/// the result is named by `utf8_lossy`; on valid UTF-8 it is exactly the
/// characters the bytes encode. How invalid sequences are replaced by
/// U+FFFD is left to the name.
#[verifier::external_body]
pub(crate) fn string_from_utf8_lossy(bytes: &[u8]) -> (text: String)
    ensures
        text@ == utf8_lossy(bytes@),
        valid_utf8(bytes@) ==> text@ == decode_utf8(bytes@),
{
    String::from_utf8_lossy(bytes).into_owned()
}

/// The characters with the Unicode property White_Space.
pub open spec fn is_unicode_whitespace(c: char) -> bool {
    let v = c as u32;
    ||| 0x09 <= v <= 0x0d
    ||| v == 0x20
    ||| v == 0x85
    ||| v == 0xa0
    ||| v == 0x1680
    ||| 0x2000 <= v <= 0x200a
    ||| v == 0x2028
    ||| v == 0x2029
    ||| v == 0x202f
    ||| v == 0x205f
    ||| v == 0x3000
}

/// The characters without their leading whitespace.
pub open spec fn trim_start(s: Seq<char>) -> Seq<char>
    decreases s.len(),
{
    if s.len() > 0 && is_unicode_whitespace(s[0]) {
        trim_start(s.drop_first())
    } else {
        s
    }
}

/// The characters without their trailing whitespace.
pub open spec fn trim_end(s: Seq<char>) -> Seq<char>
    decreases s.len(),
{
    if s.len() > 0 && is_unicode_whitespace(s.last()) {
        trim_end(s.drop_last())
    } else {
        s
    }
}

/// The characters without leading and trailing whitespace.
pub open spec fn trim_whitespace(s: Seq<char>) -> Seq<char> {
    trim_end(trim_start(s))
}

/// Whether a character has the Unicode property White_Space.
fn is_whitespace_char(c: char) -> (r: bool)
    ensures
        r == is_unicode_whitespace(c),
{
    let v = c as u32;
    (0x09 <= v && v <= 0x0d) || v == 0x20 || v == 0x85 || v == 0xa0 || v == 0x1680 || (0x2000 <= v
        && v <= 0x200a) || v == 0x2028 || v == 0x2029 || v == 0x202f || v == 0x205f || v == 0x3000
}

/// The text without leading and trailing characters that have the Unicode
/// property White_Space, as `str::trim` gives it.
pub(crate) fn str_trim<'a>(s: &'a str) -> (t: &'a str)
    ensures
        t@ == trim_whitespace(s@),
{
    let n = s.unicode_len();
    let mut start: usize = 0;
    assert(s@.skip(0) =~= s@);
    while start < n && is_whitespace_char(s.get_char(start))
        invariant
            start <= n,
            n == s@.len(),
            trim_start(s@) == trim_start(s@.skip(start as int)),
        decreases n - start,
    {
        assert(s@.skip(start as int).drop_first() =~= s@.skip(start + 1));
        start = start + 1;
    }
    assert(trim_start(s@) == s@.skip(start as int)) by {
        if start == n {
            assert(s@.skip(start as int) =~= Seq::<char>::empty());
        }
    }
    let mut end: usize = n;
    assert(s@.subrange(start as int, n as int) =~= s@.skip(start as int));
    while end > start && is_whitespace_char(s.get_char(end - 1))
        invariant
            start <= end <= n,
            n == s@.len(),
            trim_end(s@.skip(start as int)) == trim_end(s@.subrange(start as int, end as int)),
        decreases end,
    {
        assert(s@.subrange(start as int, end as int).drop_last() =~= s@.subrange(
            start as int,
            end - 1,
        ));
        end = end - 1;
    }
    assert(trim_end(s@.subrange(start as int, end as int)) == s@.subrange(start as int, end as int))
        by {
        if end == start {
            assert(s@.subrange(start as int, end as int) =~= Seq::<char>::empty());
        }
    }
    s.substring_char(start, end)
}

/// A backslash turned into a slash; any other character kept.
pub open spec fn slash_char(c: char) -> char {
    if c == '\\' {
        '/'
    } else {
        c
    }
}

/// The byte of a backslash turned into that of a slash; any other byte kept.
pub open spec fn slash_byte(b: u8) -> u8 {
    if b == 0x5c {
        0x2f
    } else {
        b
    }
}

/// Every backslash of a text replaced by a slash.
pub open spec fn forward_slashes(cs: Seq<char>) -> Seq<char> {
    cs.map_values(|c: char| slash_char(c))
}

/// A text whose backslashes were replaced holds none.
pub proof fn lemma_forward_slashes_no_backslash(cs: Seq<char>)
    ensures
        !forward_slashes(cs).contains('\\'),
{
    if forward_slashes(cs).contains('\\') {
        let i = choose|i: int|
            0 <= i < forward_slashes(cs).len() && forward_slashes(cs)[i] == '\\';
        assert(forward_slashes(cs)[i] == slash_char(cs[i]));
    }
}

/// Every backslash byte replaced by a slash byte.
pub open spec fn forward_slash_bytes(bs: Seq<u8>) -> Seq<u8> {
    bs.map_values(|b: u8| slash_byte(b))
}

proof fn lemma_scalar_forward_slashes(c: char)
    ensures
        encode_scalar(slash_char(c) as u32) == forward_slash_bytes(encode_scalar(c as u32)),
{
    char_is_scalar(c);
    let v = c as u32;
    let e = encode_scalar(v);
    if c == '\\' {
        assert(v == 0x5c);
        let w = slash_char(c) as u32;
        assert(w == 0x2f);
        assert((0x5cu32 & 0x7f) as u8 == 0x5c) by (bit_vector);
        assert((0x2fu32 & 0x7f) as u8 == 0x2f) by (bit_vector);
        assert(forward_slash_bytes(e) =~= encode_scalar(w));
    } else if has_width_1_encoding(v) {
        assert((v & 0x7f) as u8 == v) by (bit_vector)
            requires
                v <= 0x7f,
        ;
        assert(forward_slash_bytes(e) =~= e);
    } else {
        assert forall|x: u8| (0x80u8 | x) >= 0x80 by {
            assert((0x80u8 | x) >= 0x80) by (bit_vector);
        }
        assert forall|x: u8| (0xc0u8 | x) >= 0x80 by {
            assert((0xc0u8 | x) >= 0x80) by (bit_vector);
        }
        assert forall|x: u8| (0xe0u8 | x) >= 0x80 by {
            assert((0xe0u8 | x) >= 0x80) by (bit_vector);
        }
        assert forall|x: u8| (0xf0u8 | x) >= 0x80 by {
            assert((0xf0u8 | x) >= 0x80) by (bit_vector);
        }
        assert forall|i: int| 0 <= i < e.len() implies e[i] >= 0x80 by {}
        assert(forward_slash_bytes(e) =~= e);
    }
}

/// Replacing backslashes by slashes commutes with UTF-8 encoding.
pub proof fn lemma_encode_forward_slashes(cs: Seq<char>)
    ensures
        encode_utf8(forward_slashes(cs)) == forward_slash_bytes(encode_utf8(cs)),
    decreases cs.len(),
{
    if cs.len() > 0 {
        lemma_encode_forward_slashes(cs.drop_first());
        lemma_scalar_forward_slashes(cs[0]);
        assert(forward_slashes(cs).drop_first() =~= forward_slashes(cs.drop_first()));
        let head = encode_scalar(cs[0] as u32);
        let tail = encode_utf8(cs.drop_first());
        assert(forward_slash_bytes(head + tail) =~= forward_slash_bytes(head)
            + forward_slash_bytes(tail));
    }
}

/// The text with every backslash replaced by a slash.
pub fn replace_backslashes(text: &str) -> (out: String)
    ensures
        out@ == forward_slashes(text@),
{
    let bytes = text.as_bytes();
    let mut replaced: Vec<u8> = Vec::new();
    let mut i: usize = 0;
    while i < bytes.len()
        invariant
            i <= bytes.len(),
            replaced@ == forward_slash_bytes(bytes@.take(i as int)),
        decreases bytes.len() - i,
    {
        let b = bytes[i];
        if b == 0x5c {
            replaced.push(0x2f);
        } else {
            replaced.push(b);
        }
        assert(forward_slash_bytes(bytes@.take(i + 1)) =~= forward_slash_bytes(
            bytes@.take(i as int),
        ).push(slash_byte(b)));
        i = i + 1;
    }
    proof {
        assert(bytes@.take(bytes.len() as int) =~= bytes@);
        lemma_encode_forward_slashes(text@);
    }
    match string_from_utf8(replaced) {
        Some(s) => s,
        None => {
            proof {
                assert(false);
            }
            String::new()
        },
    }
}

/// A single ASCII byte is valid UTF-8.
pub proof fn lemma_ascii_byte_valid(b: u8)
    requires
        b < 0x80,
    ensures
        valid_utf8(seq![b]),
{
    let s = seq![b];
    assert((b & 0x7f) as u32 <= 0x7f) by (bit_vector);
    assert(is_leading_byte_width_1(s[0]));
    assert(valid_leading_and_continuation_bytes_first_codepoint(s));
    assert(length_of_first_codepoint(s) == 1);
    assert(not_surrogate(decode_first_codepoint(s)));
    assert(valid_first_scalar(s));
    assert(pop_first_scalar(s) =~= Seq::<u8>::empty());
    assert(valid_utf8(Seq::<u8>::empty()));
}

/// Bytes that are all ASCII are valid UTF-8.
pub proof fn lemma_ascii_valid(s: Seq<u8>)
    requires
        forall|i: int| 0 <= i < s.len() ==> s[i] < 0x80,
    ensures
        valid_utf8(s),
    decreases s.len(),
{
    if s.len() > 0 {
        lemma_ascii_valid(s.drop_last());
        lemma_ascii_byte_valid(s.last());
        valid_utf8_concat(s.drop_last(), seq![s.last()]);
        assert(s.drop_last() + seq![s.last()] =~= s);
    }
}

/// Decoding ASCII bytes gives one character per byte.
pub proof fn lemma_ascii_decode_len(s: Seq<u8>)
    requires
        forall|i: int| 0 <= i < s.len() ==> s[i] < 0x80,
    ensures
        decode_utf8(s).len() == s.len(),
    decreases s.len(),
{
    lemma_ascii_valid(s);
    if s.len() > 0 {
        lemma_ascii_byte_valid(s[0]);
        assert(is_leading_byte_width_1(s[0]));
        assert(pop_first_scalar(s) =~= s.drop_first());
        lemma_ascii_decode_len(s.drop_first());
    }
}

} // verus!
