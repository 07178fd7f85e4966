//! Small routines over strings and vectors. Each one takes its argument the
//! way its job demands (shared borrow, exclusive borrow, or by value) and its
//! contract states what the caller gets back.

use vstd::prelude::*;
use vstd::string::*;
use vstd::utf8::*;

verus! {

/// The byte that ends a word.
pub const SPACE: u8 = 0x20;

/// Index of the first space at or after `k`, or the length of `bytes` if
/// there is none.
pub open spec fn word_end_from(bytes: Seq<u8>, k: int) -> int
    decreases bytes.len() - k,
{
    if k < 0 || k >= bytes.len() {
        bytes.len() as int
    } else if bytes[k] == SPACE {
        k
    } else {
        word_end_from(bytes, k + 1)
    }
}

/// Index of the first space in `bytes`, or the length of `bytes` if there is
/// none.
pub open spec fn word_end(bytes: Seq<u8>) -> int {
    word_end_from(bytes, 0)
}

/// The first word lies within the text, and no space occurs in it.
pub proof fn lemma_word_end(bytes: Seq<u8>, k: int)
    requires
        0 <= k <= bytes.len(),
    ensures
        k <= word_end_from(bytes, k) <= bytes.len(),
        forall|j: int| k <= j < word_end_from(bytes, k) ==> bytes[j] != SPACE,
        word_end_from(bytes, k) < bytes.len() ==> bytes[word_end_from(bytes, k)] == SPACE,
    decreases bytes.len() - k,
{
    if k < bytes.len() && bytes[k] != SPACE {
        lemma_word_end(bytes, k + 1);
    }
}

/// Number of bytes in the UTF-8 encoding of `s`. The string is only borrowed,
/// so the caller keeps it.
pub fn calculate_length(s: &String) -> (len: usize)
    ensures
        len == encode_utf8(s@).len() as usize,
{
    s.as_str().len()
}

/// Appends `text` to `s` in place.
pub fn append_text(s: &mut String, text: &str)
    ensures
        final(s)@ == old(s)@ + text@,
{
    s.append(text);
}

/// A fresh string, owned by the caller from now on.
pub fn no_dangle() -> (s: String)
    ensures
        s@ == "hello"@,
{
    String::from_str("hello")
}

/// A fresh string, owned by the caller from now on.
pub fn gives_ownership() -> (s: String)
    ensures
        s@ == "hello from function"@,
{
    String::from_str("hello from function")
}

/// The part of `s` before its first space, or all of `s` if it holds no
/// space. The result borrows from `s`.
pub fn first_word(s: &str) -> (word: &str)
    ensures
        word.spec_bytes() == s.spec_bytes().subrange(0, word_end(s.spec_bytes())),
{
    let bytes = s.as_bytes();
    let mut i: usize = 0;
    while i < bytes.len()
        invariant
            i <= bytes.len(),
            bytes@ == s.spec_bytes(),
            word_end(bytes@) == word_end_from(bytes@, i as int),
        decreases bytes.len() - i,
    {
        if bytes[i] == SPACE {
            proof {
                encode_utf8_valid_utf8(s@);
                is_char_boundary_iff_not_is_continuation_byte(bytes@, i as int);
            }
            let (word, _) = s.split_at(i);
            return word;
        }
        i += 1;
    }
    assert(s.spec_bytes().subrange(0, s.spec_bytes().len() as int) =~= s.spec_bytes());
    s
}

/// Doubles every number in place.
pub fn double_numbers(numbers: &mut Vec<i32>)
    requires
        forall|i: int|
            0 <= i < old(numbers)@.len() ==> i32::MIN <= 2 * #[trigger] old(numbers)@[i]
                <= i32::MAX,
    ensures
        final(numbers)@.len() == old(numbers)@.len(),
        forall|i: int|
            0 <= i < old(numbers)@.len() ==> #[trigger] final(numbers)@[i] == 2 * old(
                numbers,
            )@[i],
{
    let n: usize = numbers.len();
    let mut i: usize = 0;
    while i < n
        invariant
            i <= n,
            n == numbers@.len(),
            n == old(numbers)@.len(),
            forall|j: int| 0 <= j < i ==> #[trigger] numbers@[j] == 2 * old(numbers)@[j],
            forall|j: int| i <= j < n ==> #[trigger] numbers@[j] == old(numbers)@[j],
            forall|j: int|
                0 <= j < n ==> i32::MIN <= 2 * #[trigger] old(numbers)@[j] <= i32::MAX,
        decreases n - i,
    {
        let doubled: i32 = numbers[i] * 2;
        numbers.set(i, doubled);
        i += 1;
    }
}

/// The longer of two strings by their length in bytes; the second one if
/// they are equally long.
pub fn longest<'a>(x: &'a str, y: &'a str) -> (longer: &'a str)
    ensures
        longer@ == if x.spec_bytes().len() as usize > y.spec_bytes().len() as usize {
            x@
        } else {
            y@
        },
{
    if x.len() > y.len() {
        x
    } else {
        y
    }
}

/// Takes `data` over, and returns it behind the prefix `Processed: `.
pub fn process_and_return(data: String) -> (processed: String)
    ensures
        processed@ == "Processed: "@ + data@,
{
    process_with_borrow(data.as_str())
}

/// Returns a new string: `data` behind the prefix `Processed: `. The
/// argument is only borrowed.
pub fn process_with_borrow(data: &str) -> (processed: String)
    ensures
        processed@ == "Processed: "@ + data@,
{
    let mut processed = String::from_str("Processed: ");
    processed.append(data);
    processed
}

} // verus!
