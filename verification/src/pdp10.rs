//! The PDP-10 dialect: 6 characters per 32-bit word.
use vstd::prelude::*;
use vstd::arithmetic::power::pow;
use crate::Error;
use crate::codec::{
    all_legal, chunk_at, chunk_value, decode_word_chars, decode_words_str, digit_of,
    encode_str, encode_word_at, encoded_words, invert, lemma_digit_of_index, lemma_pow40_values,
    num_words, padded, reports_first_illegal, wf_alphabet, word_chars, words_chars,
};

verus! {

/// The RADIX-50 character set used on the PDP-10, PDP-6, DECsystem-10,
/// and DECSYSTEM-20. A character's index in this table is its base-40
/// digit value.
///
/// |Char |Dec| Hex| Oct|Binary|
/// |-----|---|----|----|------|
/// |space|  0|0x00|0o00|000000|
/// |0    |  1|0x01|0o01|000001|
/// |...  |   |    |    |      |
/// |9    | 10|0x0a|0o12|001010|
/// |A    | 11|0x0b|0o13|001011|
/// |...  |   |    |    |      |
/// |Z    | 36|0x24|0o44|100100|
/// |.    | 37|0x25|0o45|100101|
/// |$    | 38|0x26|0o46|100110|
/// |%    | 39|0x27|0o47|100111|
pub const RADIX50_DECODE: [char; 40] = [' ', '0', '1', '2', '3', '4', '5', '6',
                                        '7', '8', '9', 'A', 'B', 'C', 'D', 'E',
                                        'F', 'G', 'H', 'I', 'J', 'K', 'L', 'M',
                                        'N', 'O', 'P', 'Q', 'R', 'S', 'T', 'U',
                                        'V', 'W', 'X', 'Y', 'Z', '.', '$', '%'];

/// The PDP-10 alphabet, as the sequence the contracts speak of.
pub open spec fn alphabet() -> Seq<char> {
    RADIX50_DECODE@
}

/// The PDP-10 alphabet is a well-formed RADIX-50 alphabet: 40 distinct
/// ASCII characters, space first.
pub proof fn lemma_alphabet_wf()
    ensures
        wf_alphabet(alphabet()),
{
    assert(alphabet().len() == 40);
    assert(alphabet()[0] == ' ');
    assert(forall|i: int| 0 <= i < 40 ==> (alphabet()[i] as u32) < 128);
    assert(forall|i: int, j: int| 0 <= i < j < 40 ==> alphabet()[i] != alphabet()[j]);
}

/// Encode a string into PDP-10 RADIX-50 format: one 32-bit word for
/// each chunk of 6 characters, the last chunk space-padded. The first
/// character outside the character set aborts the encode, reported at
/// its 1-based position in the whole string.
pub fn encode(s: &str) -> (r: Result<Vec<u32>, Error>)
    ensures
        r is Ok <==> all_legal(alphabet(), s@),
        r matches Ok(ws) ==> {
            &&& ws@.len() == num_words(s@.len(), 6)
            &&& forall|i: int|
                0 <= i < ws@.len() ==> ws@[i] == chunk_value(alphabet(), chunk_at(s@, 6, i))
            &&& ws@.map_values(|w: u32| w as int) == encoded_words(alphabet(), 6, s@)
        },
        r matches Err(e) ==> reports_first_illegal(alphabet(), s@, e),
{
    proof {
        lemma_alphabet_wf();
        lemma_pow40_values();
    }
    let enc = invert(&RADIX50_DECODE);
    match encode_str(&enc, Ghost(alphabet()), s, 6) {
        Ok(ws64) => {
            let mut out: Vec<u32> = Vec::new();
            let mut i: usize = 0;
            while i < ws64.len()
                invariant
                    i <= ws64@.len(),
                    out@.len() == i,
                    forall|j: int| 0 <= j < ws64@.len() ==> ws64@[j] < 4096000000,
                    forall|j: int| 0 <= j < i ==> out@[j] == ws64@[j],
                decreases ws64@.len() - i,
            {
                out.push(ws64[i] as u32);
                i = i + 1;
            }
            proof {
                assert(out@.map_values(|w: u32| w as int) =~= encoded_words(alphabet(), 6, s@));
            }
            Ok(out)
        },
        Err(e) => Err(e),
    }
}

/// Encode up to 6 characters into one PDP-10 RADIX-50 word. A string
/// shorter than 6 characters is treated as if space-padded to 6; an
/// illegal character is reported at its 1-based position.
pub fn encode_word(s: &str) -> (r: Result<u32, Error>)
    ensures
        ({
            let eff = padded(s@, 6);
            &&& (r is Ok <==> all_legal(alphabet(), eff))
            &&& (r matches Ok(w) ==> w == chunk_value(alphabet(), eff))
            &&& (r matches Err(e) ==> reports_first_illegal(alphabet(), eff, e))
        }),
{
    proof {
        lemma_alphabet_wf();
        lemma_pow40_values();
        assert(s@.skip(0) =~= s@);
    }
    let enc = invert(&RADIX50_DECODE);
    let len = s.unicode_len();
    match encode_word_at(&enc, Ghost(alphabet()), s, 0, len, 6) {
        Ok(w) => Ok(w as u32),
        Err(e) => Err(e),
    }
}

/// Decode a slice of PDP-10 RADIX-50 words into a string: 6 characters
/// per word, in word order. Total: every 32-bit value decodes, values
/// of 40^6 and above lose their high digits to the modulus.
pub fn decode(words: &[u32]) -> (r: String)
    ensures
        r@ == words_chars(alphabet(), 6, words@.map_values(|w: u32| w as int)),
{
    proof {
        lemma_alphabet_wf();
        lemma_pow40_values();
    }
    let mut ws: Vec<u64> = Vec::new();
    let mut i: usize = 0;
    while i < words.len()
        invariant
            i <= words@.len(),
            ws@.len() == i,
            forall|j: int| 0 <= j < i ==> ws@[j] == words@[j],
        decreases words@.len() - i,
    {
        ws.push(words[i] as u64);
        i = i + 1;
    }
    let r = decode_words_str(&RADIX50_DECODE, 6, &ws);
    proof {
        assert(ws@.map_values(|w: u64| w as int) =~= words@.map_values(|w: u32| w as int));
    }
    r
}

/// Decode one PDP-10 RADIX-50 word into its 6 characters. Total over
/// the full 32-bit range.
pub fn decode_word(word: u32) -> (r: String)
    ensures
        r@ == word_chars(alphabet(), 6, word as int),
        r@.len() == 6,
{
    proof {
        lemma_alphabet_wf();
        lemma_pow40_values();
    }
    decode_word_chars(&RADIX50_DECODE, 6, word as u64)
}

/// Round trip on legal input: a string made solely of alphabet
/// characters, of length a multiple of 6, decodes back from its
/// encoding unchanged.
pub proof fn lemma_round_trip(s: Seq<char>)
    requires
        all_legal(alphabet(), s),
        s.len() % 6 == 0,
    ensures
        words_chars(alphabet(), 6, encoded_words(alphabet(), 6, s)) == s,
{
    lemma_alphabet_wf();
    crate::codec::lemma_round_trip(alphabet(), 6, s);
}

/// Alphabet bijection: each alphabet character's digit is its index
/// in the table, and no two alphabet entries collide.
pub proof fn lemma_alphabet_bijection()
    ensures
        forall|i: int| 0 <= i < 40 ==> #[trigger] digit_of(alphabet(), alphabet()[i]) == i,
        forall|i: int, j: int| 0 <= i < j < 40 ==> alphabet()[i] != alphabet()[j],
{
    lemma_alphabet_wf();
    assert forall|i: int| 0 <= i < 40 implies #[trigger] digit_of(alphabet(), alphabet()[i])
        == i by {
        lemma_digit_of_index(alphabet(), i);
    }
}

} // verus!
