use fastmurmur3::murmur3_x64_128;
use uuid::Uuid;
use vstd::bytes::{spec_u128_to_le_bytes, u128_to_le_bytes};
use vstd::prelude::*;

verus! {

/// `uuid::Uuid`, an id of sixteen bytes. Nothing inside it is visible to
/// the proofs.
#[verifier::external_type_specification]
#[verifier::external_body]
pub struct ExUuid(uuid::Uuid);

/// The sixteen bytes that a `uuid::Uuid` holds.
pub uninterp spec fn uuid_bytes(id: Uuid) -> Seq<u8>;

/// The lower-case hexadecimal digit for a number from 0 to 15.
pub open spec fn hex_digit(n: int) -> char {
    if n < 10 {
        ('0' as int + n) as char
    } else {
        ('a' as int + n - 10) as char
    }
}

/// The bytes written as hexadecimal digits, two for each byte, the high
/// half first.
pub open spec fn hex_of(bytes: Seq<u8>) -> Seq<char>
    decreases bytes.len(),
{
    if bytes.len() == 0 {
        Seq::empty()
    } else {
        hex_of(bytes.drop_last()).push(hex_digit(bytes.last() as int / 16)).push(
            hex_digit(bytes.last() as int % 16),
        )
    }
}

/// Sixteen bytes written as hexadecimal digits in groups of four, two, two,
/// two and six bytes, with a hyphen between the groups.
pub open spec fn hyphenated(bytes: Seq<u8>) -> Seq<char> {
    hex_of(bytes.subrange(0, 4)) + seq!['-'] + hex_of(bytes.subrange(4, 6)) + seq!['-'] + hex_of(
        bytes.subrange(6, 8),
    ) + seq!['-'] + hex_of(bytes.subrange(8, 10)) + seq!['-'] + hex_of(bytes.subrange(10, 16))
}

/// Whether the character is a decimal digit, a lower-case letter of the
/// English alphabet or a hyphen.
pub open spec fn is_plain(c: char) -> bool {
    ('0' <= c && c <= '9') || ('a' <= c && c <= 'z') || c == '-'
}

/// Whether every character of the text is plain.
pub open spec fn all_plain(text: Seq<char>) -> bool {
    forall|i: int| 0 <= i < text.len() ==> is_plain(#[trigger] text[i])
}

/// `fastmurmur3::murmur3_x64_128`: a number computed from the bytes and the
/// seed. The order of the bytes in the machine's memory enters into it, so
/// nothing is stated of the number.
#[verifier::external_body]
fn murmur3(data: &[u8], seed: u64) -> u128 {
    murmur3_x64_128(data, seed)
}

/// `uuid::Uuid::from_bytes`: the id that holds the sixteen bytes given.
#[verifier::external_body]
fn uuid_from_bytes(bytes: &Vec<u8>) -> (id: Uuid)
    requires
        bytes@.len() == 16,
    ensures
        uuid_bytes(id) == bytes@,
{
    let mut raw = [0u8; 16];
    raw.copy_from_slice(bytes);
    Uuid::from_bytes(raw)
}

/// `to_string` of a `uuid::Uuid`: its bytes in lower-case hexadecimal
/// digits, in five groups with hyphens between them.
#[verifier::external_body]
fn uuid_to_string(id: &Uuid) -> (text: String)
    ensures
        text@ == hyphenated(uuid_bytes(*id)),
{
    id.to_string()
}

/// `str::to_lowercase`: a text of decimal digits, lower-case English
/// letters and hyphens is returned as it is. Of other texts nothing is
/// stated.
#[verifier::external_body]
fn lowercase(text: &str) -> (lower: String)
    ensures
        all_plain(text@) ==> lower@ == text@,
{
    text.to_lowercase()
}

/// `str::replace` with an empty replacement: the text without the
/// occurrences of one character.
#[verifier::external_body]
fn without_char(text: &str, gone: char) -> (rest: String)
    ensures
        rest@ == text@.filter(|c: char| c != gone),
{
    text.replace(gone, "")
}

/// The digits of two runs of bytes in a row are those of the first run
/// followed by those of the second.
pub proof fn lemma_hex_of_concat(a: Seq<u8>, b: Seq<u8>)
    ensures
        hex_of(a + b) == hex_of(a) + hex_of(b),
    decreases b.len(),
{
    if b.len() == 0 {
        assert(a + b =~= a);
        assert(hex_of(a) + hex_of(b) =~= hex_of(a));
    } else {
        lemma_hex_of_concat(a, b.drop_last());
        assert((a + b).drop_last() =~= a + b.drop_last());
        assert((a + b).last() == b.last());
        assert(hex_of(a + b) =~= hex_of(a) + hex_of(b));
    }
}

/// Hexadecimal digits are plain, and none of them is a hyphen.
pub proof fn lemma_hex_of_plain(bytes: Seq<u8>)
    ensures
        all_plain(hex_of(bytes)),
        hex_of(bytes).len() == 2 * bytes.len(),
        hex_of(bytes).filter(|c: char| c != '-') == hex_of(bytes),
    decreases bytes.len(),
{
    reveal(Seq::filter);
    let keep = |c: char| c != '-';
    if bytes.len() > 0 {
        lemma_hex_of_plain(bytes.drop_last());
        let front = hex_of(bytes.drop_last());
        let high = hex_digit(bytes.last() as int / 16);
        let low = hex_digit(bytes.last() as int % 16);
        assert(is_plain(high) && high != '-');
        assert(is_plain(low) && low != '-');
        let mid = front.push(high);
        assert(mid.drop_last() =~= front);
        assert(mid.filter(keep) == mid);
        let all = mid.push(low);
        assert(all.drop_last() =~= mid);
        assert(all.filter(keep) == all);
    }
}

/// A hyphen alone is plain, and nothing is left of it without hyphens.
proof fn lemma_hyphen_alone()
    ensures
        seq!['-'].filter(|c: char| c != '-') == Seq::<char>::empty(),
{
    reveal(Seq::filter);
    let keep = |c: char| c != '-';
    let one = seq!['-'];
    assert(one.drop_last() =~= Seq::<char>::empty());
    assert(one.drop_last().filter(keep) =~= Seq::<char>::empty());
}

/// The hyphenated digits of sixteen bytes are plain, and without the
/// hyphens they are the digits of the bytes.
pub proof fn lemma_hyphenated(bytes: Seq<u8>)
    requires
        bytes.len() == 16,
    ensures
        all_plain(hyphenated(bytes)),
        hyphenated(bytes).filter(|c: char| c != '-') == hex_of(bytes),
{
    let keep = |c: char| c != '-';
    let g1 = bytes.subrange(0, 4);
    let g2 = bytes.subrange(4, 6);
    let g3 = bytes.subrange(6, 8);
    let g4 = bytes.subrange(8, 10);
    let g5 = bytes.subrange(10, 16);
    let dash = seq!['-'];
    lemma_hex_of_plain(g1);
    lemma_hex_of_plain(g2);
    lemma_hex_of_plain(g3);
    lemma_hex_of_plain(g4);
    lemma_hex_of_plain(g5);
    lemma_hyphen_alone();
    let s1 = hex_of(g1);
    let s2 = s1 + dash;
    let s3 = s2 + hex_of(g2);
    let s4 = s3 + dash;
    let s5 = s4 + hex_of(g3);
    let s6 = s5 + dash;
    let s7 = s6 + hex_of(g4);
    let s8 = s7 + dash;
    let s9 = s8 + hex_of(g5);
    assert(s9 == hyphenated(bytes));
    Seq::filter_distributes_over_add(s1, dash, keep);
    Seq::filter_distributes_over_add(s2, hex_of(g2), keep);
    Seq::filter_distributes_over_add(s3, dash, keep);
    Seq::filter_distributes_over_add(s4, hex_of(g3), keep);
    Seq::filter_distributes_over_add(s5, dash, keep);
    Seq::filter_distributes_over_add(s6, hex_of(g4), keep);
    Seq::filter_distributes_over_add(s7, dash, keep);
    Seq::filter_distributes_over_add(s8, hex_of(g5), keep);
    assert(s2.filter(keep) =~= s1);
    lemma_hex_of_concat(g1, g2);
    lemma_hex_of_concat(g1 + g2, g3);
    lemma_hex_of_concat(g1 + g2 + g3, g4);
    lemma_hex_of_concat(g1 + g2 + g3 + g4, g5);
    assert(g1 + g2 + g3 + g4 + g5 =~= bytes);
    assert(s4.filter(keep) =~= hex_of(g1 + g2));
    assert(s6.filter(keep) =~= hex_of(g1 + g2 + g3));
    assert(s8.filter(keep) =~= hex_of(g1 + g2 + g3 + g4));
    assert(s9.filter(keep) =~= hex_of(bytes));
    assert(all_plain(s9)) by {
        assert(is_plain('-'));
        assert(all_plain(s2));
        assert(all_plain(s3));
        assert(all_plain(s4));
        assert(all_plain(s5));
        assert(all_plain(s6));
        assert(all_plain(s7));
        assert(all_plain(s8));
    }
}

/// Turns texts into short fingerprints with the Murmur3 hash.
pub struct MurMurHasher;

impl MurMurHasher {
    /// Writes a 128-bit number as 32 lower-case hexadecimal digits, its
    /// lowest byte first.
    pub fn hex_text(hash: u128) -> (text: String)
        ensures
            text@ == hex_of(spec_u128_to_le_bytes(hash)),
    {
        let bytes = u128_to_le_bytes(hash);
        let guid = uuid_from_bytes(&bytes);
        let dashed = uuid_to_string(&guid);
        proof {
            lemma_hyphenated(bytes@);
        }
        let lower = lowercase(dashed.as_str());
        without_char(lower.as_str(), '-')
    }

    /// Hashes a text and returns the hash as 32 lower-case hexadecimal
    /// digits.
    pub fn hash(str: &str) -> (text: String)
        ensures
            exists|hash: u128| text@ == hex_of(#[trigger] spec_u128_to_le_bytes(hash)),
    {
        let hash = murmur3(str.as_bytes(), 0);
        MurMurHasher::hex_text(hash)
    }
}

} // verus!
