//! The generic RADIX-50 codec: base-40 positional packing of characters
//! into machine words, shared by the two dialects.
//!
//! Everything is parameterized by the dialect's 40-character alphabet
//! `t` (a character's digit value is its index in `t`) and by `n`, the
//! number of characters packed into one word (3 for PDP-11/VAX, 6 for
//! PDP-10).
use vstd::prelude::*;
use vstd::arithmetic::power::pow;
use vstd::arithmetic::mul::lemma_mul_inequality;
use crate::Error;

verus! {

/// A character is legal when it occurs in the dialect's alphabet.
pub open spec fn legal_char(t: Seq<char>, c: char) -> bool {
    t.contains(c)
}

/// The digit value of a character: its index in the alphabet.
/// Meaningful only when `legal_char(t, c)` holds.
pub open spec fn digit_of(t: Seq<char>, c: char) -> int {
    t.index_of(c)
}

/// Every character of `s` is legal.
pub open spec fn all_legal(t: Seq<char>, s: Seq<char>) -> bool {
    forall|i: int| 0 <= i < s.len() ==> legal_char(t, s[i])
}

/// What a RADIX-50 alphabet is: 40 distinct characters with ASCII codes
/// below 128, the first of which is the space used for padding.
pub open spec fn wf_alphabet(t: Seq<char>) -> bool {
    &&& t.len() == 40
    &&& t[0] == ' '
    &&& forall|i: int| 0 <= i < 40 ==> (t[i] as u32) < 128
    &&& forall|i: int, j: int| 0 <= i < j < 40 ==> t[i] != t[j]
}

/// The first `n` characters of `s`, right-padded with spaces to length
/// exactly `n`.
pub open spec fn padded(s: Seq<char>, n: nat) -> Seq<char> {
    if s.len() >= n {
        s.take(n as int)
    } else {
        s + Seq::new((n - s.len()) as nat, |i: int| ' ')
    }
}

/// Chunk `i` (0-based) of `s`: the `n` characters starting at `i * n`,
/// space-padded at the end of the string.
pub open spec fn chunk_at(s: Seq<char>, n: nat, i: int) -> Seq<char> {
    padded(s.skip(i * n), n)
}

/// How many words encoding a string of `len` characters produces:
/// one per chunk of `n`, the last chunk possibly partial.
pub open spec fn num_words(len: nat, n: nat) -> int {
    (len + n - 1) / (n as int)
}

/// The base-40 value of a run of digit characters, most significant
/// first: value = sum of digit[k] * 40^(len-1-k).
pub open spec fn chunk_value(t: Seq<char>, chunk: Seq<char>) -> int
    decreases chunk.len(),
{
    if chunk.len() == 0 {
        0
    } else {
        chunk_value(t, chunk.drop_last()) * 40 + digit_of(t, chunk.last())
    }
}

/// The `n` characters that the word value `w` decodes to, most
/// significant digit first. Total: digits of values `w >= 40^n` beyond
/// the low `n` are discarded by the modulus.
pub open spec fn word_chars(t: Seq<char>, n: nat, w: int) -> Seq<char> {
    Seq::new(n, |k: int| t[w / pow(40, (n - 1 - k) as nat) % 40])
}

/// Decoding a word sequence: the concatenation, in order, of each
/// word's characters.
pub open spec fn words_chars(t: Seq<char>, n: nat, ws: Seq<int>) -> Seq<char>
    decreases ws.len(),
{
    if ws.len() == 0 {
        Seq::empty()
    } else {
        words_chars(t, n, ws.drop_last()) + word_chars(t, n, ws.last())
    }
}

/// The word sequence that a fully legal string encodes to.
pub open spec fn encoded_words(t: Seq<char>, n: nat, s: Seq<char>) -> Seq<int> {
    Seq::new(num_words(s.len(), n) as nat, |i: int| chunk_value(t, chunk_at(s, n, i)))
}

/// `e` reports the first illegal character of `s`, at its 1-based
/// position. At most one error value satisfies this for a given string.
pub open spec fn reports_first_illegal(t: Seq<char>, s: Seq<char>, e: Error) -> bool {
    match e {
        Error::IllegalChar { char: c, pos: p } => {
            &&& 1 <= p <= s.len()
            &&& c == s[p - 1]
            &&& !legal_char(t, c)
            &&& forall|j: int| 0 <= j < p - 1 ==> legal_char(t, s[j])
        },
    }
}

/// The alphabet's entry at index `i` has digit value `i`: the two
/// directions of the alphabet/digit correspondence invert each other.
pub proof fn lemma_digit_of_index(t: Seq<char>, i: int)
    requires
        wf_alphabet(t),
        0 <= i < t.len(),
    ensures
        legal_char(t, t[i]),
        digit_of(t, t[i]) == i,
{
    assert(legal_char(t, t[i]));
    let k = t.index_of(t[i]);
    assert(0 <= k < t.len() && t[k] == t[i]);
    if k < i {
        assert(t[k] != t[i]);
    } else if i < k {
        assert(t[i] != t[k]);
    }
}

/// The digit of a legal character is in range, and maps back to the
/// character through the alphabet.
pub proof fn lemma_digit_of_legal(t: Seq<char>, c: char)
    requires
        wf_alphabet(t),
        legal_char(t, c),
    ensures
        0 <= digit_of(t, c) < 40,
        t[digit_of(t, c)] == c,
{
    let k = t.index_of(c);
    assert(0 <= k < t.len() && t[k] == c);
}

/// What the inverse table holds for `c` once the first `upto` alphabet
/// entries have been recorded: the character's digit, or nothing.
pub open spec fn inverse_entry(t: Seq<char>, c: char, upto: int) -> Option<u8> {
    if legal_char(t, c) && digit_of(t, c) < upto {
        Some(digit_of(t, c) as u8)
    } else {
        None
    }
}

/// The inverse table maps every ASCII code to the digit of its
/// character, or to `None` for codes outside the alphabet.
pub open spec fn inverse_ok(enc: Seq<Option<u8>>, t: Seq<char>) -> bool {
    &&& enc.len() == 128
    &&& forall|c: char|
        #![trigger inverse_entry(t, c, 40)]
        (c as u32) < 128 ==> enc[c as u32 as int] == inverse_entry(t, c, 40)
}

/// Build the 128-slot inverse lookup from the 40-entry alphabet:
/// the slot at a character's ASCII code holds the character's digit.
pub(crate) fn invert(table: &[char; 40]) -> (enc: [Option<u8>; 128])
    requires
        wf_alphabet(table@),
    ensures
        inverse_ok(enc@, table@),
{
    let mut enc: [Option<u8>; 128] = [None; 128];
    assert(forall|c: char|
        #![trigger inverse_entry(table@, c, 0)]
        (c as u32) < 128 ==> enc@[c as u32 as int] == inverse_entry(table@, c, 0));
    let mut i: usize = 0;
    while i < 40
        invariant
            wf_alphabet(table@),
            i <= 40,
            enc@.len() == 128,
            forall|c: char|
                #![trigger inverse_entry(table@, c, i as int)]
                (c as u32) < 128 ==> enc@[c as u32 as int] == inverse_entry(table@, c, i as int),
        decreases 40 - i,
    {
        let ch = table[i];
        proof {
            lemma_digit_of_index(table@, i as int);
        }
        let ghost old_enc = enc@;
        let code = ch as u32;
        enc[code as usize] = Some(i as u8);
        assert forall|c: char| (c as u32) < 128 implies enc@[c as u32 as int] == #[trigger] inverse_entry(
            table@,
            c,
            i + 1,
        ) by {
            if c == ch {
                assert(enc@[c as u32 as int] == Some(i as u8));
                assert(inverse_entry(table@, c, i + 1) == Some(i as u8));
            } else {
                if legal_char(table@, c) {
                    lemma_digit_of_legal(table@, c);
                }
                if c as u32 == code {
                    lemma_char_code_injective(c, ch);
                }
                assert(c as u32 != code);
                assert(enc@[c as u32 as int] == old_enc[c as u32 as int]);
                assert(inverse_entry(table@, c, i + 1) == inverse_entry(table@, c, i as int)) by {
                    if legal_char(table@, c) && digit_of(table@, c) == i {
                        assert(table@[i as int] == c);
                    }
                }
            }
        }
        i += 1;
    }
    enc
}

/// Look a character up in the inverse table: its digit value, or the
/// error that reports it illegal at the caller-supplied position.
pub(crate) fn radix50_from_char(
    enc: &[Option<u8>; 128],
    Ghost(t): Ghost<Seq<char>>,
    c: char,
    pos: usize,
) -> (r: Result<u8, Error>)
    requires
        wf_alphabet(t),
        inverse_ok(enc@, t),
    ensures
        legal_char(t, c) ==> (r matches Ok(d) && d == digit_of(t, c)),
        !legal_char(t, c) ==> r == Err::<u8, Error>(Error::IllegalChar { char: c, pos: pos }),
{
    proof {
        if legal_char(t, c) {
            lemma_digit_of_legal(t, c);
        }
    }
    let code = c as u32;
    if code >= 128 {
        return Err(Error::IllegalChar { char: c, pos });
    }
    assert(enc@[c as u32 as int] == inverse_entry(t, c, 40));
    match enc[code as usize] {
        Some(d) => Ok(d),
        None => Err(Error::IllegalChar { char: c, pos }),
    }
}

/// One unfolding step of the base-40 power, and its positivity.
pub proof fn lemma_pow40_step(k: nat)
    ensures
        pow(40, k + 1) == 40 * pow(40, k),
        pow(40, k) >= 1,
        pow(40, 0) == 1,
{
    reveal(pow);
    vstd::arithmetic::power::lemma_pow_positive(40, k);
}

/// 40 raised to the given power, for the word-packing arithmetic.
pub(crate) fn pow40(e: usize) -> (r: u64)
    requires
        pow(40, e as nat) <= u64::MAX,
    ensures
        r == pow(40, e as nat),
{
    proof {
        lemma_pow40_step(0);
    }
    let mut r: u64 = 1;
    let mut k: usize = 0;
    while k < e
        invariant
            k <= e,
            r == pow(40, k as nat),
            pow(40, e as nat) <= u64::MAX,
        decreases e - k,
    {
        proof {
            lemma_pow40_step(k as nat);
            vstd::arithmetic::power::lemma_pow_increases(40, (k + 1) as nat, e as nat);
        }
        r = r * 40;
        k = k + 1;
    }
    r
}

/// The value of a fully legal digit run lies below 40^length.
pub proof fn lemma_chunk_value_bounds(t: Seq<char>, chunk: Seq<char>)
    requires
        wf_alphabet(t),
        all_legal(t, chunk),
    ensures
        0 <= chunk_value(t, chunk) < pow(40, chunk.len()),
    decreases chunk.len(),
{
    if chunk.len() == 0 {
        lemma_pow40_step(0);
    } else {
        let front = chunk.drop_last();
        assert(all_legal(t, front)) by {
            assert(forall|i: int| 0 <= i < front.len() ==> front[i] == chunk[i]);
        }
        lemma_chunk_value_bounds(t, front);
        lemma_digit_of_legal(t, chunk.last());
        lemma_pow40_step(front.len());
        lemma_mul_inequality(chunk_value(t, front), pow(40, front.len()) - 1, 40);
    }
}

/// Encode the chunk of `s` that starts at `start`: the next `n`
/// characters, space-padded past the end of the string, packed into one
/// base-40 word. An illegal character is reported at its 1-based
/// position within the chunk.
pub(crate) fn encode_word_at(
    enc: &[Option<u8>; 128],
    Ghost(t): Ghost<Seq<char>>,
    s: &str,
    start: usize,
    len: usize,
    n: usize,
) -> (r: Result<u64, Error>)
    requires
        wf_alphabet(t),
        inverse_ok(enc@, t),
        len == s@.len(),
        start <= len,
        1 <= n,
        pow(40, n as nat) <= u64::MAX,
    ensures
        ({
            let eff = padded(s@.skip(start as int), n as nat);
            &&& (r is Ok <==> all_legal(t, eff))
            &&& (r matches Ok(w) ==> w == chunk_value(t, eff) && w < pow(40, n as nat))
            &&& (r matches Err(e) ==> reports_first_illegal(t, eff, e))
        }),
{
    let ghost eff = padded(s@.skip(start as int), n as nat);
    proof {
        assert(eff.len() == n);
        assert(eff.take(0) =~= Seq::<char>::empty());
        lemma_pow40_step(0);
    }
    let mut v: u64 = 0;
    let mut k: usize = 0;
    while k < n
        invariant
            wf_alphabet(t),
            inverse_ok(enc@, t),
            len == s@.len(),
            start <= len,
            1 <= n,
            pow(40, n as nat) <= u64::MAX,
            eff == padded(s@.skip(start as int), n as nat),
            eff.len() == n,
            k <= n,
            v == chunk_value(t, eff.take(k as int)),
            all_legal(t, eff.take(k as int)),
            v < pow(40, k as nat),
        decreases n - k,
    {
        let c = if k < len - start {
            s.get_char(start + k)
        } else {
            ' '
        };
        proof {
            assert(eff[k as int] == c);
        }
        match radix50_from_char(enc, Ghost(t), c, k + 1) {
            Ok(d) => {
                proof {
                    if !legal_char(t, c) {
                        assert(false);
                    }
                    lemma_digit_of_legal(t, c);
                    lemma_pow40_step(k as nat);
                    vstd::arithmetic::power::lemma_pow_increases(40, (k + 1) as nat, n as nat);
                    lemma_mul_inequality(v as int, pow(40, k as nat) - 1, 40);
                    assert(eff.take(k + 1).drop_last() =~= eff.take(k as int));
                    assert(eff.take(k + 1).last() == eff[k as int]);
                    assert(all_legal(t, eff.take(k + 1))) by {
                        assert(forall|j: int|
                            0 <= j < k + 1 ==> eff.take(k + 1)[j] == eff.take(k as int).push(
                                eff[k as int],
                            )[j]);
                    }
                }
                v = v * 40 + (d as u64);
                k = k + 1;
            },
            Err(e) => {
                proof {
                    assert(!legal_char(t, eff[k as int]));
                    assert(forall|j: int| 0 <= j < k ==> eff[j] == eff.take(k as int)[j]);
                    assert(reports_first_illegal(t, eff, e));
                    assert(!all_legal(t, eff));
                }
                return Err(e);
            },
        }
    }
    proof {
        assert(eff.take(n as int) =~= eff);
    }
    Ok(v)
}

/// Legality of a prefix extends to a longer prefix whose new
/// characters are all legal.
proof fn lemma_all_legal_take(t: Seq<char>, s: Seq<char>, a: int, b: int)
    requires
        0 <= a <= b <= s.len(),
        all_legal(t, s.take(a)),
        forall|j: int| a <= j < b ==> legal_char(t, #[trigger] s[j]),
    ensures
        all_legal(t, s.take(b)),
{
    assert forall|j: int| 0 <= j < b implies legal_char(t, #[trigger] s.take(b)[j]) by {
        if j < a {
            assert(s.take(a)[j] == s[j]);
        }
        assert(s.take(b)[j] == s[j]);
    }
}

/// The concrete powers of 40 that the two dialects' word widths rest
/// on: 40^3 fits a 16-bit word and 40^6 fits a 32-bit word.
pub proof fn lemma_pow40_values()
    ensures
        pow(40, 3) == 64000,
        pow(40, 6) == 4096000000,
{
    lemma_pow40_step(0);
    lemma_pow40_step(1);
    lemma_pow40_step(2);
    lemma_pow40_step(3);
    lemma_pow40_step(4);
    lemma_pow40_step(5);
}

/// An empty string needs no words.
proof fn lemma_num_words_zero(n: nat)
    requires
        n >= 1,
    ensures
        num_words(0, n) == 0,
{
    vstd::arithmetic::div_mod::lemma_basic_div(n - 1, n as int);
}

/// A string that ends inside chunk `i` needs exactly `i + 1` words.
proof fn lemma_num_words_last(len: nat, n: nat, i: int)
    requires
        n >= 1,
        i >= 0,
        i * n < len <= i * n + n,
    ensures
        num_words(len, n) == i + 1,
{
    let r = len - i * n;
    assert(n as int * (i + 1) + (r - 1) == len + n - 1) by (nonlinear_arith)
        requires
            r == len - i * n,
    ;
    vstd::arithmetic::div_mod::lemma_div_multiples_vanish_fancy(i + 1, r - 1, n as int);
}

/// Encode a whole string: split it into chunks of `n`, the last one
/// space-padded, and pack each chunk into a word. The first illegal
/// character aborts the encode and is reported at its 1-based position
/// in the whole string.
pub(crate) fn encode_str(
    enc: &[Option<u8>; 128],
    Ghost(t): Ghost<Seq<char>>,
    s: &str,
    n: usize,
) -> (r: Result<Vec<u64>, Error>)
    requires
        wf_alphabet(t),
        inverse_ok(enc@, t),
        1 <= n,
        pow(40, n as nat) <= u64::MAX,
    ensures
        r is Ok <==> all_legal(t, s@),
        r matches Ok(ws) ==> {
            &&& ws@.len() == num_words(s@.len(), n as nat)
            &&& forall|i: int|
                0 <= i < ws@.len() ==> ws@[i] == chunk_value(t, chunk_at(s@, n as nat, i))
            &&& forall|i: int| 0 <= i < ws@.len() ==> ws@[i] < pow(40, n as nat)
        },
        r matches Err(e) ==> reports_first_illegal(t, s@, e),
{
    let len = s.unicode_len();
    proof {
        if len == 0 {
            lemma_num_words_zero(n as nat);
        }
    }
    let mut out: Vec<u64> = Vec::new();
    let mut start: usize = 0;
    while start < len
        invariant
            wf_alphabet(t),
            inverse_ok(enc@, t),
            len == s@.len(),
            1 <= n,
            pow(40, n as nat) <= u64::MAX,
            start <= len,
            start < len ==> start == out@.len() * n,
            start == len ==> out@.len() == num_words(len as nat, n as nat),
            forall|j: int|
                0 <= j < out@.len() ==> out@[j] == chunk_value(t, chunk_at(s@, n as nat, j)),
            forall|j: int| 0 <= j < out@.len() ==> out@[j] < pow(40, n as nat),
            all_legal(t, s@.take(start as int)),
        decreases len - start,
    {
        let ghost i = out@.len() as int;
        let ghost eff = padded(s@.skip(start as int), n as nat);
        match encode_word_at(enc, Ghost(t), s, start, len, n) {
            Ok(w) => {
                proof {
                    assert(chunk_at(s@, n as nat, i) == eff);
                }
                out.push(w);
                proof {
                    let stop = if start + n < len {
                        start + n as int
                    } else {
                        len as int
                    };
                    assert forall|j: int| start <= j < stop implies legal_char(
                        t,
                        #[trigger] s@[j],
                    ) by {
                        assert(eff[j - start] == s@[j]);
                        assert(legal_char(t, eff[j - start]));
                    }
                    lemma_all_legal_take(t, s@, start as int, stop);
                }
                if n < len - start {
                    proof {
                        assert((i + 1) * n == i * n + n) by (nonlinear_arith);
                    }
                    start = start + n;
                } else {
                    proof {
                        lemma_num_words_last(len as nat, n as nat, i);
                    }
                    start = len;
                }
            },
            Err(e) => {
                proof {
                    assert(reports_first_illegal(t, eff, e));
                }
                match e {
                    Error::IllegalChar { char: c, pos: p } => {
                        proof {
                            // The illegal character is a real character of
                            // `s`, not padding, so its global position is
                            // within the string.
                            assert(p - 1 < len - start) by {
                                if p - 1 >= len - start {
                                    assert(eff[p - 1] == ' ');
                                    assert(legal_char(t, ' ')) by {
                                        assert(t[0] == ' ');
                                    }
                                }
                            }
                            assert(s@[start + p - 1] == eff[p - 1]);
                            assert forall|j: int| 0 <= j < start + p - 1 implies legal_char(
                                t,
                                #[trigger] s@[j],
                            ) by {
                                if j < start {
                                    assert(s@.take(start as int)[j] == s@[j]);
                                } else {
                                    assert(eff[j - start] == s@[j]);
                                    assert(legal_char(t, eff[j - start]));
                                }
                            }
                        }
                        return Err(Error::IllegalChar { char: c, pos: start + p });
                    },
                }
            },
        }
    }
    proof {
        assert(s@.take(len as int) =~= s@);
    }
    Ok(out)
}

/// Base-40 positional extraction: digit `k` (most significant first)
/// of a legal run's packed value is the digit of the run's character
/// at `k`.
pub proof fn lemma_chunk_value_digit(t: Seq<char>, chunk: Seq<char>, k: int)
    requires
        wf_alphabet(t),
        all_legal(t, chunk),
        0 <= k < chunk.len(),
    ensures
        chunk_value(t, chunk) / pow(40, (chunk.len() - 1 - k) as nat) % 40 == digit_of(
            t,
            chunk[k],
        ),
    decreases chunk.len(),
{
    let m = chunk.len() as int;
    let front = chunk.drop_last();
    assert(all_legal(t, front)) by {
        assert(forall|i: int| 0 <= i < front.len() ==> front[i] == chunk[i]);
    }
    let vf = chunk_value(t, front);
    let d = digit_of(t, chunk.last());
    let v = chunk_value(t, chunk);
    lemma_chunk_value_bounds(t, front);
    lemma_digit_of_legal(t, chunk.last());
    if k == m - 1 {
        lemma_pow40_step(0);
        assert(v % 40 == d) by {
            vstd::arithmetic::div_mod::lemma_mod_multiples_vanish(vf, d, 40);
            vstd::arithmetic::div_mod::lemma_small_mod(d as nat, 40);
            assert(40 * vf == vf * 40);
        }
        vstd::arithmetic::div_mod::lemma_div_basics(v);
    } else {
        let e = (m - 1 - k) as nat;
        lemma_pow40_step((e - 1) as nat);
        assert(v / 40 == vf) by {
            vstd::arithmetic::div_mod::lemma_div_multiples_vanish_fancy(vf, d, 40);
            assert(40 * vf == vf * 40);
        }
        assert(v / pow(40, e) == vf / pow(40, (e - 1) as nat)) by {
            lemma_chunk_value_bounds(t, chunk);
            vstd::arithmetic::power::lemma_pow_positive(40, (e - 1) as nat);
            vstd::arithmetic::div_mod::lemma_div_denominator(v, 40, pow(40, (e - 1) as nat));
        }
        lemma_chunk_value_digit(t, front, k);
    }
}

/// Round trip at the word level: a fully legal run of characters comes
/// back unchanged when its packed value is unpacked.
pub proof fn lemma_word_roundtrip(t: Seq<char>, chunk: Seq<char>)
    requires
        wf_alphabet(t),
        all_legal(t, chunk),
    ensures
        word_chars(t, chunk.len(), chunk_value(t, chunk)) == chunk,
{
    let n = chunk.len();
    let v = chunk_value(t, chunk);
    assert forall|k: int| 0 <= k < n implies word_chars(t, n, v)[k] == chunk[k] by {
        lemma_chunk_value_digit(t, chunk, k);
        lemma_digit_of_legal(t, chunk[k]);
    }
    assert(word_chars(t, n, v) =~= chunk);
}

/// Round trip at the string level: a fully legal string whose length
/// is a multiple of the chunk size decodes back from its encoding
/// unchanged.
pub proof fn lemma_round_trip(t: Seq<char>, n: nat, s: Seq<char>)
    requires
        wf_alphabet(t),
        n >= 1,
        all_legal(t, s),
        s.len() % n == 0,
    ensures
        words_chars(t, n, encoded_words(t, n, s)) == s,
    decreases s.len(),
{
    let len = s.len() as int;
    let q = len / n as int;
    vstd::arithmetic::div_mod::lemma_fundamental_div_mod(len, n as int);
    assert(len == (n as int) * q);
    let ew = encoded_words(t, n, s);
    if s.len() == 0 {
        lemma_num_words_zero(n);
        assert(ew.len() == 0);
        assert(words_chars(t, n, ew) =~= s);
    } else {
        assert(q >= 1) by {
            if q <= 0 {
                assert((n as int) * q <= 0) by (nonlinear_arith)
                    requires
                        q <= 0,
                        n >= 1,
                ;
            }
        }
        vstd::arithmetic::div_mod::lemma_div_multiples_vanish_fancy(q, n as int - 1, n as int);
        assert((n as int) * q + (n as int - 1) == len + n - 1);
        assert(num_words(s.len(), n) == q);
        assert(len >= n) by (nonlinear_arith)
            requires
                len == (n as int) * q,
                q >= 1,
                n >= 1,
        ;
        let s1 = s.take(len - n);
        assert(all_legal(t, s1)) by {
            assert(forall|i: int| 0 <= i < s1.len() ==> s1[i] == s[i]);
        }
        assert(len - n == (n as int) * (q - 1)) by (nonlinear_arith)
            requires
                len == (n as int) * q,
        ;
        assert(s1.len() % n == 0) by {
            vstd::arithmetic::div_mod::lemma_mod_multiples_basic(q - 1, n as int);
            assert((q - 1) * (n as int) == (n as int) * (q - 1)) by (nonlinear_arith);
        }
        lemma_round_trip(t, n, s1);
        let ew1 = encoded_words(t, n, s1);
        assert(ew1.len() == q - 1) by {
            vstd::arithmetic::div_mod::lemma_div_multiples_vanish_fancy(
                q - 1,
                n as int - 1,
                n as int,
            );
            assert((n as int) * (q - 1) + (n as int - 1) == s1.len() + n - 1) by (nonlinear_arith)
                requires
                    s1.len() == (n as int) * (q - 1),
            ;
        }
        // Chunks before the last are the same in `s` and its shortened
        // form; the last chunk of `s` is exactly its final `n`
        // characters.
        assert(ew.drop_last() =~= ew1) by {
            assert forall|i: int| 0 <= i < q - 1 implies chunk_at(s1, n, i) =~= chunk_at(
                s,
                n,
                i,
            ) by {
                let a = i * n;
                assert(0 <= a && a + n <= len - n) by (nonlinear_arith)
                    requires
                        a == i * n,
                        0 <= i < q - 1,
                        n >= 1,
                        len == (n as int) * q,
                ;
                assert(s1.skip(a).take(n as int) =~= s.skip(a).take(n as int));
                assert(chunk_at(s1, n, i) == s1.skip(a).take(n as int));
                assert(chunk_at(s, n, i) == s.skip(a).take(n as int));
            }
        }
        let last_chunk = s.skip(len - n);
        assert(ew.last() == chunk_value(t, last_chunk)) by {
            assert((q - 1) * n == len - n) by (nonlinear_arith)
                requires
                    len == (n as int) * q,
            ;
            assert(chunk_at(s, n, q - 1) =~= last_chunk);
        }
        assert(all_legal(t, last_chunk)) by {
            assert(forall|j: int|
                0 <= j < last_chunk.len() ==> last_chunk[j] == s[len - n + j]);
        }
        lemma_word_roundtrip(t, last_chunk);
        assert(words_chars(t, n, ew) == words_chars(t, n, ew.drop_last()) + word_chars(
            t,
            n,
            ew.last(),
        ));
        assert(words_chars(t, n, ew) =~= s);
    }
}

/// Padding idempotence: a string of at most `n` characters and its
/// explicitly space-padded form yield the same padded chunk, so they
/// encode to the same word.
pub proof fn lemma_padding_idempotent(s: Seq<char>, n: nat)
    requires
        s.len() <= n,
    ensures
        padded(s, n) == padded(s + Seq::new((n - s.len()) as nat, |i: int| ' '), n),
{
    let sp = s + Seq::new((n - s.len()) as nat, |i: int| ' ');
    assert(sp.len() == n);
    assert(padded(sp, n) =~= sp);
    if s.len() == n {
        assert(padded(s, n) =~= sp);
    } else {
        assert(padded(s, n) =~= sp);
    }
}

/// Only one error value reports the first illegal character of a given
/// string: the error contract pins the result completely.
pub proof fn lemma_first_illegal_unique(t: Seq<char>, s: Seq<char>, e1: Error, e2: Error)
    requires
        reports_first_illegal(t, s, e1),
        reports_first_illegal(t, s, e2),
    ensures
        e1 == e2,
{
    match (e1, e2) {
        (
            Error::IllegalChar { char: c1, pos: p1 },
            Error::IllegalChar { char: c2, pos: p2 },
        ) => {
            if p1 < p2 {
                assert(legal_char(t, s[p1 - 1]));
            } else if p2 < p1 {
                assert(legal_char(t, s[p2 - 1]));
            }
        },
    }
}

/// Relies on String::push: it appends the given character to the end
/// of the string. vstd specifies no push for String, only append of a
/// string slice.
#[verifier::external_body]
fn push_char(s: &mut String, c: char)
    ensures
        final(s)@ == old(s)@.push(c),
{
    s.push(c);
}

/// Decode one word into its `n` characters, most significant base-40
/// digit first. Total: any word value decodes, digits beyond the low
/// `n` are discarded by the modulus.
pub(crate) fn decode_word_chars(table: &[char; 40], n: usize, w: u64) -> (r: String)
    requires
        wf_alphabet(table@),
        1 <= n,
        pow(40, n as nat) <= u64::MAX,
    ensures
        r@ == word_chars(table@, n as nat, w as int),
{
    let ghost wc = word_chars(table@, n as nat, w as int);
    let mut out = String::new();
    proof {
        assert(out@ =~= wc.take(0));
    }
    let mut k: usize = 0;
    while k < n
        invariant
            wf_alphabet(table@),
            1 <= n,
            pow(40, n as nat) <= u64::MAX,
            wc == word_chars(table@, n as nat, w as int),
            k <= n,
            out@ == wc.take(k as int),
        decreases n - k,
    {
        proof {
            vstd::arithmetic::power::lemma_pow_increases(40, (n - 1 - k) as nat, n as nat);
            lemma_pow40_step((n - 1 - k) as nat);
        }
        let divisor = pow40(n - 1 - k);
        let d = (w / divisor) % 40;
        let c = table[d as usize];
        push_char(&mut out, c);
        proof {
            assert(wc[k as int] == c);
            assert(wc.take(k + 1) =~= wc.take(k as int).push(c));
        }
        k = k + 1;
    }
    proof {
        assert(wc.take(n as int) =~= wc);
    }
    out
}

/// Decode a word sequence: each word's characters, concatenated in
/// word order. Total, and the output length is always `n` characters
/// per word.
pub(crate) fn decode_words_str(table: &[char; 40], n: usize, ws: &Vec<u64>) -> (r: String)
    requires
        wf_alphabet(table@),
        1 <= n,
        pow(40, n as nat) <= u64::MAX,
    ensures
        r@ == words_chars(table@, n as nat, ws@.map_values(|w: u64| w as int)),
{
    let ghost wsm = ws@.map_values(|w: u64| w as int);
    let mut out = String::new();
    proof {
        assert(wsm.take(0) =~= Seq::<int>::empty());
    }
    let mut i: usize = 0;
    while i < ws.len()
        invariant
            wf_alphabet(table@),
            1 <= n,
            pow(40, n as nat) <= u64::MAX,
            wsm == ws@.map_values(|w: u64| w as int),
            i <= ws@.len(),
            out@ == words_chars(table@, n as nat, wsm.take(i as int)),
        decreases ws@.len() - i,
    {
        let piece = decode_word_chars(table, n, ws[i]);
        out.append(piece.as_str());
        proof {
            assert(wsm.take(i + 1).drop_last() =~= wsm.take(i as int));
            assert(wsm.take(i + 1).last() == ws@[i as int] as int);
        }
        i = i + 1;
    }
    proof {
        assert(wsm.take(ws@.len() as int) =~= wsm);
    }
    out
}

/// Two characters with the same code point are the same character.
proof fn lemma_char_code_injective(c: char, d: char)
    requires
        c as u32 == d as u32,
    ensures
        c == d,
{
}

} // verus!
