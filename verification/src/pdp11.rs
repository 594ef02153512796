//! The PDP-11/VAX dialect: 3 characters per 16-bit word.
use vstd::prelude::*;
use vstd::arithmetic::power::pow;
use crate::Error;
use crate::codec::{
    all_legal, chunk_at, chunk_value, decode_word_chars, decode_words_str, digit_of,
    encode_str, encode_word_at, encoded_words, invert, lemma_digit_of_index, lemma_pow40_values,
    num_words, padded, reports_first_illegal, wf_alphabet, word_chars, words_chars,
};

verus! {

/// The RADIX-50 character set used on the PDP-11 and VAX. A
/// character's index in this table is its base-40 digit value.
///
/// |Char |Dec| Hex| Oct|Binary|
/// |-----|---|----|----|------|
/// |space|  0|0x00|0o00|000000|
/// |A    |  1|0x01|0o01|000001|
/// |...  |   |    |    |      |
/// |Z    | 26|0x1a|0o32|011010|
/// |$    | 27|0x1b|0o33|011011|
/// |.    | 28|0x1c|0o34|011100|
/// |%    | 29|0x1d|0o35|011101|
/// |0    | 30|0x1e|0o36|011110|
/// |...  |   |    |    |      |
/// |9    | 39|0x27|0o47|100111|
pub const RADIX50_DECODE: [char; 40] = [' ', 'A', 'B', 'C', 'D', 'E', 'F', 'G',
                                        'H', 'I', 'J', 'K', 'L', 'M', 'N', 'O',
                                        'P', 'Q', 'R', 'S', 'T', 'U', 'V', 'W',
                                        'X', 'Y', 'Z', '$', '.', '%', '0', '1',
                                        '2', '3', '4', '5', '6', '7', '8', '9'];

/// The PDP-11 alphabet, as the sequence the contracts speak of.
pub open spec fn alphabet() -> Seq<char> {
    RADIX50_DECODE@
}

/// The PDP-11 alphabet is a well-formed RADIX-50 alphabet: 40 distinct
/// ASCII characters, space first.
pub proof fn lemma_alphabet_wf()
    ensures
        wf_alphabet(alphabet()),
{
    assert(alphabet().len() == 40);
    assert(alphabet()[0] == ' ');
    assert(forall|i: int| 0 <= i < 40 ==> (alphabet()[i] as u32) < 128);
    assert(forall|i: int, j: int| 0 <= i < j < 40 ==> alphabet()[i] != alphabet()[j]);
}

/// Encode a string into PDP-11 RADIX-50 format: one 16-bit word for
/// each chunk of 3 characters, the last chunk space-padded. The first
/// character outside the character set aborts the encode, reported at
/// its 1-based position in the whole string.
pub fn encode(s: &str) -> (r: Result<Vec<u16>, Error>)
    ensures
        r is Ok <==> all_legal(alphabet(), s@),
        r matches Ok(ws) ==> {
            &&& ws@.len() == num_words(s@.len(), 3)
            &&& forall|i: int|
                0 <= i < ws@.len() ==> ws@[i] == chunk_value(alphabet(), chunk_at(s@, 3, i))
            &&& ws@.map_values(|w: u16| w as int) == encoded_words(alphabet(), 3, s@)
        },
        r matches Err(e) ==> reports_first_illegal(alphabet(), s@, e),
{
    proof {
        lemma_alphabet_wf();
        lemma_pow40_values();
    }
    let enc = invert(&RADIX50_DECODE);
    match encode_str(&enc, Ghost(alphabet()), s, 3) {
        Ok(ws64) => {
            let mut out: Vec<u16> = Vec::new();
            let mut i: usize = 0;
            while i < ws64.len()
                invariant
                    i <= ws64@.len(),
                    out@.len() == i,
                    forall|j: int| 0 <= j < ws64@.len() ==> ws64@[j] < 64000,
                    forall|j: int| 0 <= j < i ==> out@[j] == ws64@[j],
                decreases ws64@.len() - i,
            {
                out.push(ws64[i] as u16);
                i = i + 1;
            }
            proof {
                assert(out@.map_values(|w: u16| w as int) =~= encoded_words(alphabet(), 3, s@));
            }
            Ok(out)
        },
        Err(e) => Err(e),
    }
}

/// Encode up to 3 characters into one PDP-11 RADIX-50 word. A string
/// shorter than 3 characters is treated as if space-padded to 3; an
/// illegal character is reported at its 1-based position.
pub fn encode_word(s: &str) -> (r: Result<u16, Error>)
    ensures
        ({
            let eff = padded(s@, 3);
            &&& (r is Ok <==> all_legal(alphabet(), eff))
            &&& (r matches Ok(w) ==> w == chunk_value(alphabet(), eff))
            &&& (r matches Err(e) ==> reports_first_illegal(alphabet(), eff, e))
        }),
{
    proof {
        lemma_alphabet_wf();
        lemma_pow40_values();
        assert(s@.skip(0) =~= s@);
    }
    let enc = invert(&RADIX50_DECODE);
    let len = s.unicode_len();
    match encode_word_at(&enc, Ghost(alphabet()), s, 0, len, 3) {
        Ok(w) => Ok(w as u16),
        Err(e) => Err(e),
    }
}

/// Decode a slice of PDP-11 RADIX-50 words into a string: 3 characters
/// per word, in word order. Total: every 16-bit value decodes, values
/// of 64000 and above lose their high digits to the modulus.
pub fn decode(words: &[u16]) -> (r: String)
    ensures
        r@ == words_chars(alphabet(), 3, words@.map_values(|w: u16| w as int)),
{
    proof {
        lemma_alphabet_wf();
        lemma_pow40_values();
    }
    let mut ws: Vec<u64> = Vec::new();
    let mut i: usize = 0;
    while i < words.len()
        invariant
            i <= words@.len(),
            ws@.len() == i,
            forall|j: int| 0 <= j < i ==> ws@[j] == words@[j],
        decreases words@.len() - i,
    {
        ws.push(words[i] as u64);
        i = i + 1;
    }
    let r = decode_words_str(&RADIX50_DECODE, 3, &ws);
    proof {
        assert(ws@.map_values(|w: u64| w as int) =~= words@.map_values(|w: u16| w as int));
    }
    r
}

/// Decode one PDP-11 RADIX-50 word into its 3 characters. Total over
/// the full 16-bit range.
pub fn decode_word(word: u16) -> (r: String)
    ensures
        r@ == word_chars(alphabet(), 3, word as int),
        r@.len() == 3,
{
    proof {
        lemma_alphabet_wf();
        lemma_pow40_values();
    }
    decode_word_chars(&RADIX50_DECODE, 3, word as u64)
}

/// Round trip on legal input: a string made solely of alphabet
/// characters, of length a multiple of 3, decodes back from its
/// encoding unchanged.
pub proof fn lemma_round_trip(s: Seq<char>)
    requires
        all_legal(alphabet(), s),
        s.len() % 3 == 0,
    ensures
        words_chars(alphabet(), 3, encoded_words(alphabet(), 3, s)) == s,
{
    lemma_alphabet_wf();
    crate::codec::lemma_round_trip(alphabet(), 3, s);
}

/// Alphabet bijection: each alphabet character's digit is its index
/// in the table, and no two alphabet entries collide.
pub proof fn lemma_alphabet_bijection()
    ensures
        forall|i: int| 0 <= i < 40 ==> #[trigger] digit_of(alphabet(), alphabet()[i]) == i,
        forall|i: int, j: int| 0 <= i < j < 40 ==> alphabet()[i] != alphabet()[j],
{
    lemma_alphabet_wf();
    assert forall|i: int| 0 <= i < 40 implies #[trigger] digit_of(alphabet(), alphabet()[i])
        == i by {
        lemma_digit_of_index(alphabet(), i);
    }
}

} // verus!
