//! Generated file names: random identifiers in their canonical text form,
//! thirty-two lower-case hexadecimal digits in groups of 8, 4, 4, 4 and 12,
//! joined by hyphens.

use crate::text::chars_of;
use vstd::prelude::*;

verus! {

/// The sixteen lower-case hexadecimal digits, in order of their value.
pub open spec fn hex_digits() -> Seq<char> {
    seq!['0', '1', '2', '3', '4', '5', '6', '7', '8', '9', 'a', 'b', 'c', 'd', 'e', 'f']
}

/// Whether `c` is one of the sixteen lower-case hexadecimal digits.
pub open spec fn is_hex_digit(c: char) -> bool {
    ('0' <= c && c <= '9') || ('a' <= c && c <= 'f')
}

/// Two hexadecimal digits for each byte, the high half first.
pub open spec fn hex_text(bytes: Seq<u8>) -> Seq<char> {
    Seq::new(
        2 * bytes.len(),
        |i: int|
            if i % 2 == 0 {
                hex_digits()[bytes[i / 2] as int / 16]
            } else {
                hex_digits()[bytes[i / 2] as int % 16]
            },
    )
}

/// The canonical text of a sixteen-byte identifier.
pub open spec fn hyphenated_text(bytes: Seq<u8>) -> Seq<char> {
    hex_text(bytes.subrange(0, 4)) + seq!['-'] + hex_text(bytes.subrange(4, 6)) + seq!['-']
        + hex_text(bytes.subrange(6, 8)) + seq!['-'] + hex_text(bytes.subrange(8, 10)) + seq!['-']
        + hex_text(bytes.subrange(10, 16))
}

/// Whether position `i` of a canonical name holds a hyphen.
pub open spec fn is_hyphen_position(i: int) -> bool {
    i == 8 || i == 13 || i == 18 || i == 23
}

/// Whether `name` has the canonical form: 36 characters, hyphens at
/// positions 8, 13, 18 and 23, hexadecimal digits everywhere else.
pub open spec fn is_canonical(name: Seq<char>) -> bool {
    &&& name.len() == 36
    &&& forall|i: int|
        0 <= i < 36 ==> if is_hyphen_position(i) {
            name[i] == '-'
        } else {
            is_hex_digit(#[trigger] name[i])
        }
}

/// Whether sixteen bytes carry the marks of a random (version 4)
/// identifier: version 4 in the high half of byte 6, and the two top bits
/// of byte 8 set to one and zero.
pub open spec fn is_random_identifier(bytes: Seq<u8>) -> bool {
    &&& bytes.len() == 16
    &&& bytes[6] & 0xf0 == 0x40
    &&& bytes[8] & 0xc0 == 0x80
}

/// Whether `name` is the canonical text of a random identifier.
pub open spec fn is_generated_name(name: Seq<char>) -> bool {
    &&& is_canonical(name)
    &&& name[14] == '4'
    &&& (name[19] == '8' || name[19] == '9' || name[19] == 'a' || name[19] == 'b')
}

/// Every character that `hex_text` produces is a hexadecimal digit.
proof fn lemma_hex_text(bytes: Seq<u8>)
    ensures
        hex_text(bytes).len() == 2 * bytes.len(),
        forall|i: int| 0 <= i < 2 * bytes.len() ==> is_hex_digit(#[trigger] hex_text(bytes)[i]),
{
    assert forall|i: int| 0 <= i < 2 * bytes.len() implies is_hex_digit(
        #[trigger] hex_text(bytes)[i],
    ) by {
        let b = bytes[i / 2] as int;
        assert(0 <= b / 16 < 16);
        assert(0 <= b % 16 < 16);
        assert(forall|k: int| 0 <= k < 16 ==> is_hex_digit(#[trigger] hex_digits()[k]));
    }
}

/// The canonical text of any sixteen bytes has the canonical form.
pub proof fn lemma_hyphenated_text_is_canonical(bytes: Seq<u8>)
    requires
        bytes.len() == 16,
    ensures
        is_canonical(hyphenated_text(bytes)),
{
    let text = hyphenated_text(bytes);
    lemma_hex_text(bytes.subrange(0, 4));
    lemma_hex_text(bytes.subrange(4, 6));
    lemma_hex_text(bytes.subrange(6, 8));
    lemma_hex_text(bytes.subrange(8, 10));
    lemma_hex_text(bytes.subrange(10, 16));
    assert(text.len() == 36);
    assert forall|i: int| 0 <= i < 36 implies if is_hyphen_position(i) {
        text[i] == '-'
    } else {
        is_hex_digit(#[trigger] text[i])
    } by {
        if i < 8 {
            assert(text[i] == hex_text(bytes.subrange(0, 4))[i]);
        } else if i == 8 {
        } else if i < 13 {
            assert(text[i] == hex_text(bytes.subrange(4, 6))[i - 9]);
        } else if i == 13 {
        } else if i < 18 {
            assert(text[i] == hex_text(bytes.subrange(6, 8))[i - 14]);
        } else if i == 18 {
        } else if i < 23 {
            assert(text[i] == hex_text(bytes.subrange(8, 10))[i - 19]);
        } else if i == 23 {
        } else {
            assert(text[i] == hex_text(bytes.subrange(10, 16))[i - 24]);
        }
    }
}

/// The text of a random identifier shows its version and variant.
pub proof fn lemma_random_identifier_text(bytes: Seq<u8>)
    requires
        is_random_identifier(bytes),
    ensures
        is_generated_name(hyphenated_text(bytes)),
{
    let text = hyphenated_text(bytes);
    lemma_hyphenated_text_is_canonical(bytes);
    let version = bytes[6];
    let variant = bytes[8];
    assert(version / 16 == 4) by (bit_vector)
        requires
            version & 0xf0 == 0x40,
    ;
    assert(8 <= variant / 16 < 12) by (bit_vector)
        requires
            variant & 0xc0 == 0x80,
    ;
    assert(text[14] == hex_text(bytes.subrange(6, 8))[0]);
    assert(text[19] == hex_text(bytes.subrange(8, 10))[0]);
}

/// Where the first of the two digits of byte `k` stands in the canonical
/// text.
pub open spec fn digit_position(k: int) -> int {
    if k < 4 {
        2 * k
    } else if k < 6 {
        2 * k + 1
    } else if k < 8 {
        2 * k + 2
    } else if k < 10 {
        2 * k + 3
    } else {
        2 * k + 4
    }
}

/// The two digits of each byte stand at its place in the canonical text.
pub proof fn lemma_digits_of_byte(bytes: Seq<u8>, k: int)
    requires
        bytes.len() == 16,
        0 <= k < 16,
    ensures
        hyphenated_text(bytes)[digit_position(k)] == hex_digits()[bytes[k] as int / 16],
        hyphenated_text(bytes)[digit_position(k) + 1] == hex_digits()[bytes[k] as int % 16],
{
    let text = hyphenated_text(bytes);
    let at = digit_position(k);
    if k < 4 {
        assert(text[at] == hex_text(bytes.subrange(0, 4))[2 * k]);
        assert(text[at + 1] == hex_text(bytes.subrange(0, 4))[2 * k + 1]);
    } else if k < 6 {
        assert(text[at] == hex_text(bytes.subrange(4, 6))[2 * (k - 4)]);
        assert(text[at + 1] == hex_text(bytes.subrange(4, 6))[2 * (k - 4) + 1]);
    } else if k < 8 {
        assert(text[at] == hex_text(bytes.subrange(6, 8))[2 * (k - 6)]);
        assert(text[at + 1] == hex_text(bytes.subrange(6, 8))[2 * (k - 6) + 1]);
    } else if k < 10 {
        assert(text[at] == hex_text(bytes.subrange(8, 10))[2 * (k - 8)]);
        assert(text[at + 1] == hex_text(bytes.subrange(8, 10))[2 * (k - 8) + 1]);
    } else {
        assert(text[at] == hex_text(bytes.subrange(10, 16))[2 * (k - 10)]);
        assert(text[at + 1] == hex_text(bytes.subrange(10, 16))[2 * (k - 10) + 1]);
    }
}

/// Different values have different digits.
proof fn lemma_hex_digits_differ(x: int, y: int)
    requires
        0 <= x < 16,
        0 <= y < 16,
        hex_digits()[x] == hex_digits()[y],
    ensures
        x == y,
{
}

/// Different identifiers have different names: the canonical texts of two
/// identifiers are equal only where the identifiers are.
pub proof fn lemma_different_identifiers_different_names(first: Seq<u8>, second: Seq<u8>)
    requires
        first.len() == 16,
        second.len() == 16,
        first != second,
    ensures
        hyphenated_text(first) != hyphenated_text(second),
{
    if hyphenated_text(first) == hyphenated_text(second) {
        assert forall|k: int| 0 <= k < 16 implies first[k] == second[k] by {
            lemma_digits_of_byte(first, k);
            lemma_digits_of_byte(second, k);
            let a = first[k] as int;
            let b = second[k] as int;
            lemma_hex_digits_differ(a / 16, b / 16);
            lemma_hex_digits_differ(a % 16, b % 16);
        }
        assert(first =~= second);
    }
}

/// Tells whether `c` is a lower-case hexadecimal digit.
pub fn hex_digit(c: char) -> (b: bool)
    ensures
        b == is_hex_digit(c),
{
    ('0' <= c && c <= '9') || ('a' <= c && c <= 'f')
}

/// Tells whether `name` has the canonical form.
pub fn canonical(name: &str) -> (b: bool)
    ensures
        b == is_canonical(name@),
{
    let chars = chars_of(name);
    if chars.len() != 36 {
        return false;
    }
    let mut i: usize = 0;
    while i < 36
        invariant
            i <= 36,
            chars@ == name@,
            chars@.len() == 36,
            forall|k: int|
                0 <= k < i ==> if is_hyphen_position(k) {
                    chars@[k] == '-'
                } else {
                    is_hex_digit(#[trigger] chars@[k])
                },
        decreases 36 - i,
    {
        let c = chars[i];
        let fits = if i == 8 || i == 13 || i == 18 || i == 23 {
            c == '-'
        } else {
            hex_digit(c)
        };
        if !fits {
            return false;
        }
        i = i + 1;
    }
    true
}

/// Sixteen random bytes from `uuid::Uuid::new_v4`, which draws 128 bits
/// from the operating system and then fixes the version field to 4 and the
/// variant field to the bits one, zero. Nothing else is claimed of the
/// bytes. The call panics when the system has no random bytes to give.
#[verifier::external_body]
fn random_identifier() -> (bytes: [u8; 16])
    ensures
        is_random_identifier(bytes@),
{
    uuid::Uuid::new_v4().into_bytes()
}

/// The text that `uuid::Uuid::hyphenated` formats for the identifier made
/// of `bytes`: each byte as two lower-case hexadecimal digits, with a
/// hyphen after the fourth, sixth, eighth and tenth byte.
#[verifier::external_body]
fn hyphenated(bytes: &[u8; 16]) -> (text: String)
    ensures
        text@ == hyphenated_text(bytes@),
{
    uuid::Uuid::from_bytes(*bytes).hyphenated().to_string()
}

/// The canonical name for a sixteen-byte identifier.
pub fn name_of(bytes: &[u8; 16]) -> (name: String)
    ensures
        name@ == hyphenated_text(bytes@),
        is_canonical(name@),
{
    proof {
        lemma_hyphenated_text_is_canonical(bytes@);
    }
    hyphenated(bytes)
}

/// A fresh name: the canonical text of a new random identifier.
///
/// Two calls are never to be taken as equal. The call panics where the
/// operating system gives no random bytes.
pub fn generate_new_name() -> (name: String)
    ensures
        is_generated_name(name@),
{
    let bytes = random_identifier();
    proof {
        lemma_random_identifier_text(bytes@);
    }
    name_of(&bytes)
}

} // verus!
