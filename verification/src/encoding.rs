//! The two encodings of the game's text files: UTF-8 (with or without a
//! byte order mark) and the Windows-1252 of the historical data.
use vstd::prelude::*;
use vstd::utf8::{codepoint_width_3, continuation_bits, decode_utf8, decode_utf8_encode_utf8, encode_scalar, encode_utf8, encode_utf8_decode_utf8, encode_utf8_valid_utf8, last_continuation_byte, leading_bits_width_3, leading_byte_width_3, second_last_continuation_byte, valid_utf8};
use crate::text::{to_chars, from_chars, starts_with};

verus! {

/// What `encoding_rs::WINDOWS_1252.decode` gives for `bytes`: the text it
/// decodes (a byte order mark selects UTF-8 or UTF-16 instead).
pub uninterp spec fn windows_1252_decoded(bytes: Seq<u8>) -> Seq<char>;

/// What `encoding_rs::WINDOWS_1252.encode` gives for `text`: the bytes and
/// whether some character had no Windows-1252 byte.
pub uninterp spec fn windows_1252_encoded(text: Seq<char>) -> (Seq<u8>, bool);

/// The byte order mark of UTF-8.
pub open spec fn utf8_bom() -> Seq<u8> {
    seq![0xEFu8, 0xBBu8, 0xBFu8]
}

/// Whether `bytes` starts with a byte order mark that
/// `encoding_rs::Encoding::decode` takes to select UTF-8 or UTF-16: EF BB BF,
/// FF FE or FE FF.
pub open spec fn sniffed_bom(bytes: Seq<u8>) -> bool {
    ||| has_bom(bytes)
    ||| bytes.len() >= 2 && bytes[0] == 0xFFu8 && bytes[1] == 0xFEu8
    ||| bytes.len() >= 2 && bytes[0] == 0xFEu8 && bytes[1] == 0xFFu8
}

/// Whether `bytes` starts with the UTF-8 byte order mark.
pub open spec fn has_bom(bytes: Seq<u8>) -> bool {
    bytes.len() >= 3 && bytes.take(3) == utf8_bom()
}

/// `s` without its leading U+FEFF characters.
pub open spec fn without_boms(s: Seq<char>) -> Seq<char>
    decreases s.len(),
{
    if starts_with(s, '\u{feff}') {
        without_boms(s.drop_first())
    } else {
        s
    }
}

/// The text of a file: valid UTF-8 without leading byte order marks, or
/// else the Windows-1252 decoding.
pub open spec fn decoded_text(bytes: Seq<u8>) -> Seq<char> {
    if valid_utf8(bytes) {
        without_boms(decode_utf8(bytes))
    } else {
        windows_1252_decoded(bytes)
    }
}

/// The UTF-8 bytes of `text`, behind a byte order mark when `source` has one.
pub open spec fn utf8_like(source: Seq<u8>, text: Seq<char>) -> Seq<u8> {
    if has_bom(source) {
        utf8_bom() + encode_utf8(text)
    } else {
        encode_utf8(text)
    }
}

/// `std::str::from_utf8`: the text of `bytes` when they are valid UTF-8.
#[verifier::external_body]
pub(crate) fn utf8_text(bytes: &[u8]) -> (r: Option<String>)
    ensures
        r is Some <==> valid_utf8(bytes@),
        r matches Some(s) ==> s@ == decode_utf8(bytes@),
{
    std::str::from_utf8(bytes).ok().map(|s| s.to_owned())
}

/// `encoding_rs::WINDOWS_1252.decode`: the decoded text; what it is, is named
/// by `windows_1252_decoded`. Where no byte order mark selects another
/// encoding, each byte is decoded by the Windows-1252 table, which maps the
/// 256 bytes to 256 different characters; `encode` maps those characters
/// back, so encoding the text gives back the bytes, with no error.
#[verifier::external_body]
fn windows_1252_decode(bytes: &[u8]) -> (r: String)
    ensures
        r@ == windows_1252_decoded(bytes@),
        !sniffed_bom(bytes@) ==> windows_1252_encoded(r@) == (bytes@, false),
{
    encoding_rs::WINDOWS_1252.decode(bytes).0.into_owned()
}

/// `encoding_rs::WINDOWS_1252.encode`: the bytes and the error flag, named by
/// `windows_1252_encoded`. As its source shows, ASCII text is passed
/// through as its own bytes without error.
#[verifier::external_body]
pub(crate) fn windows_1252_encode(text: &str) -> (r: (Vec<u8>, bool))
    ensures
        (r.0@, r.1) == windows_1252_encoded(text@),
        vstd::utf8::is_ascii_chars(text@) ==> r.0@ == encode_utf8(text@) && !r.1,
{
    let (bytes, _, errors) = encoding_rs::WINDOWS_1252.encode(text);
    (bytes.into_owned(), errors)
}

proof fn lemma_skip_boms(s: Seq<char>, i: int)
    requires
        0 <= i <= s.len(),
        forall|j: int| 0 <= j < i ==> #[trigger] s[j] == '\u{feff}',
    ensures
        without_boms(s) == without_boms(s.skip(i)),
    decreases i,
{
    if i > 0 {
        assert(s.drop_first().skip(i - 1) =~= s.skip(i));
        lemma_skip_boms(s.drop_first(), i - 1);
    } else {
        assert(s.skip(0) =~= s);
    }
}

/// A text without its leading U+FEFF characters does not start with one.
pub proof fn lemma_without_boms_start(s: Seq<char>)
    ensures
        !starts_with(without_boms(s), '\u{feff}'),
    decreases s.len(),
{
    if starts_with(s, '\u{feff}') {
        lemma_without_boms_start(s.drop_first());
    }
}

/// The text of UTF-8 bytes does not start with U+FEFF.
pub proof fn lemma_utf8_text_start(bytes: Seq<u8>)
    requires
        valid_utf8(bytes),
    ensures
        !starts_with(decoded_text(bytes), '\u{feff}'),
{
    lemma_without_boms_start(decode_utf8(bytes));
}

/// Decodes the bytes of a game file (see `decoded_text`).
pub fn decode_text(bytes: &[u8]) -> (r: String)
    ensures
        r@ == decoded_text(bytes@),
        !valid_utf8(bytes@) && !sniffed_bom(bytes@) ==> windows_1252_encoded(r@) == (bytes@, false),
{
    match utf8_text(bytes) {
        Some(s) => {
            let v = to_chars(s.as_str());
            let mut i: usize = 0;
            while i < v.len() && v[i] == '\u{feff}'
                invariant
                    i <= v@.len(),
                    forall|j: int| 0 <= j < i ==> #[trigger] v@[j] == '\u{feff}',
                decreases v@.len() - i,
            {
                i += 1;
            }
            proof {
                lemma_skip_boms(v@, i as int);
            }
            let rest = crate::text::sub_chars(v.as_slice(), i, v.len());
            assert(rest@ =~= v@.skip(i as int));
            from_chars(rest.as_slice())
        },
        None => windows_1252_decode(bytes),
    }
}

/// Whether `bytes` starts with the UTF-8 byte order mark.
pub fn starts_with_bom(bytes: &[u8]) -> (r: bool)
    ensures
        r == has_bom(bytes@),
{
    if bytes.len() >= 3 && bytes[0] == 0xEF && bytes[1] == 0xBB && bytes[2] == 0xBF {
        assert(bytes@.take(3) =~= utf8_bom());
        true
    } else {
        proof {
            if bytes@.len() >= 3 {
                assert(bytes@.take(3)[0] == bytes@[0]);
                assert(bytes@.take(3)[1] == bytes@[1]);
                assert(bytes@.take(3)[2] == bytes@[2]);
            }
        }
        false
    }
}

/// The UTF-8 bytes of `text`, behind a byte order mark when `source` has one.
pub fn utf8_bytes_like(source: &[u8], text: &str) -> (r: Vec<u8>)
    ensures
        r@ == utf8_like(source@, text@),
{
    let mut out: Vec<u8> = Vec::new();
    if starts_with_bom(source) {
        out.push(0xEF);
        out.push(0xBB);
        out.push(0xBF);
    }
    let b = text.as_bytes();
    let mut i: usize = 0;
    let ghost start = out@;
    while i < b.len()
        invariant
            i <= b@.len(),
            out@ == start + b@.take(i as int),
        decreases b@.len() - i,
    {
        out.push(b[i]);
        i += 1;
        assert(out@ =~= start + b@.take(i as int));
    }
    assert(b@.take(b@.len() as int) =~= b@);
    assert(out@ =~= utf8_like(source@, text@));
    out
}

/// Bytes written in UTF-8 read back as the text written: decoding
/// `utf8_like(source, t)` gives `t`, for every text that does not itself
/// start with a byte order mark.
pub proof fn law_utf8_reads_back(source: Seq<u8>, t: Seq<char>)
    requires
        !starts_with(t, '\u{feff}'),
    ensures
        decoded_text(utf8_like(source, t)) == t,
{
    broadcast use encode_utf8_valid_utf8, encode_utf8_decode_utf8;

    if has_bom(source) {
        let u = seq!['\u{feff}'] + t;
        assert(u[0] == '\u{feff}');
        assert(u.drop_first() =~= t);
        let v: u32 = 0xFEFF;
        assert((0xE0u8 | ((v >> 12) & 0x0F) as u8) == 0xEFu8) by (bit_vector)
            requires
                v == 0xFEFF,
        ;
        assert((0x80u8 | ((v >> 6) & 0x3F) as u8) == 0xBBu8) by (bit_vector)
            requires
                v == 0xFEFF,
        ;
        assert((0x80u8 | (v & 0x3F) as u8) == 0xBFu8) by (bit_vector)
            requires
                v == 0xFEFF,
        ;
        assert(leading_byte_width_3(v) == 0xEFu8);
        assert(second_last_continuation_byte(v) == 0xBBu8);
        assert(last_continuation_byte(v) == 0xBFu8);
        assert(encode_scalar(v) =~= utf8_bom());
        assert(('\u{feff}' as u32) == 0xFEFFu32);
        assert(encode_utf8(u) == encode_scalar(u[0] as u32) + encode_utf8(u.drop_first()));
        assert(encode_utf8(u) =~= utf8_bom() + encode_utf8(t));
        assert(decode_utf8(encode_utf8(u)) == u);
        assert(without_boms(u) == without_boms(t));
    }
}

/// The UTF-8 bytes of a file read back as written: encoding the text read
/// from them, with the file's byte order mark, gives the same bytes (for a
/// file with no second byte order mark).
pub proof fn law_utf8_text_writes_back(bytes: Seq<u8>)
    requires
        valid_utf8(bytes),
        !starts_with(
            decode_utf8(
                if has_bom(bytes) {
                    bytes.skip(3)
                } else {
                    bytes
                },
            ),
            '\u{feff}',
        ),
    ensures
        utf8_like(bytes, decoded_text(bytes)) == bytes,
{
    if has_bom(bytes) {
        lemma_bom_decodes(bytes);
        let rest = bytes.skip(3);
        let c = decode_utf8(bytes);
        assert(c.drop_first() =~= decode_utf8(rest));
        assert(without_boms(c) == without_boms(decode_utf8(rest)));
        decode_utf8_encode_utf8(rest);
        assert(utf8_bom() + rest =~= bytes);
    } else {
        decode_utf8_encode_utf8(bytes);
    }
}

/// Valid UTF-8 that starts with the byte order mark decodes to U+FEFF and
/// the text of the bytes after it.
pub proof fn lemma_bom_decodes(bytes: Seq<u8>)
    requires
        valid_utf8(bytes),
        has_bom(bytes),
    ensures
        valid_utf8(bytes.skip(3)),
        decode_utf8(bytes) == seq!['\u{feff}'] + decode_utf8(bytes.skip(3)),
{
    assert(bytes.take(3)[0] == bytes[0]);
    assert(bytes.take(3)[1] == bytes[1]);
    assert(bytes.take(3)[2] == bytes[2]);
    let b0 = bytes[0];
    let b1 = bytes[1];
    let b2 = bytes[2];
    assert(b0 == 0xEFu8 && b1 == 0xBBu8 && b2 == 0xBFu8);
    assert((((b0 & 0x0F) as u32) << 12u32) | (((b1 & 0x3f) as u32) << 6u32) | ((b2 & 0x3f) as u32) == 0xFEFFu32)
        by (bit_vector)
        requires
            b0 == 0xEFu8 && b1 == 0xBBu8 && b2 == 0xBFu8,
    ;
    assert(leading_bits_width_3(b0) == (b0 & 0x0F) as u32);
    assert(continuation_bits(b1) == (b1 & 0x3f) as u32);
    assert(continuation_bits(b2) == (b2 & 0x3f) as u32);
    assert(codepoint_width_3(b0, b1, b2) == 0xFEFFu32);
    let rest = bytes.skip(3);
    assert(bytes.subrange(3, bytes.len() as int) =~= rest);
    assert(valid_utf8(rest));
    assert(('\u{feff}' as u32) == 0xFEFFu32);
    assert((0xFEFFu32 as char) == '\u{feff}');
    let c = decode_utf8(bytes);
    assert(c == seq!['\u{feff}'] + decode_utf8(rest));
}

} // verus!
