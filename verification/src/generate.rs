//! Making tokens at random.
//!
//! A token is `nft1` and 58 symbols, each drawn from the 62 digits and
//! letters of either case. Every such token can be read.

use rand::rngs::StdRng;
use vstd::prelude::*;
use crate::decode::coordinate_symbol;
use crate::decode::decode_failure;
use crate::decode::has_prefix;
use crate::decode::lemma_size_not_negative;
use crate::decode::room_count;
use crate::decode::size_of;
use crate::decode::size_symbol;
use crate::random::random_between;
use crate::symbols::is_symbol;
use crate::symbols::lemma_symbol_value_range;
use crate::symbols::symbol_value;

verus! {

/// The number of characters of a token that [`generate_nft_id`] makes.
pub const TOKEN_LEN: usize = 62;

/// The symbol with the given number among the 62: the digits first, then the
/// lower-case letters, then the upper-case ones.
pub open spec fn symbol_of(index: int) -> char {
    if index < 10 {
        ('0' as int + index) as char
    } else if index < 36 {
        ('a' as int + index - 10) as char
    } else {
        ('A' as int + index - 36) as char
    }
}

/// Looks up the symbol with the given number.
pub fn base62_symbol(index: u32) -> (symbol: char)
    requires
        index < 62,
    ensures
        symbol == symbol_of(index as int),
        is_symbol(symbol),
{
    let code: u8 = if index < 10 {
        48u8 + index as u8
    } else if index < 36 {
        97u8 + (index - 10) as u8
    } else {
        65u8 + (index - 36) as u8
    };
    code as char
}

/// Calls `String::push` of the standard library, which appends one
/// character to a string. That the string is then longer by that character
/// is taken on trust.
#[verifier::external_body]
fn push_char(text: &mut String, c: char)
    ensures
        final(text)@ == old(text)@.push(c),
{
    text.push(c);
}

/// A token of 62 characters whose symbols after the prefix are all digits or
/// letters can be read.
pub proof fn lemma_full_token_can_be_read(s: Seq<char>)
    requires
        s.len() == TOKEN_LEN,
        has_prefix(s),
        forall|i: int| 4 <= i < s.len() ==> is_symbol(#[trigger] s[i]),
    ensures
        decode_failure(s) is None,
{
    lemma_symbol_value_range(s[4]);
    assert forall|i: int| 0 <= i < 2 * room_count(s) implies is_symbol(
        #[trigger] coordinate_symbol(s, i),
    ) by {
        let at = 5 + (5 + i - 5) % (s.len() - 5);
        assert(5 <= at < s.len());
        assert(is_symbol(s[at]));
    }
    assert forall|k: int| 0 <= k < room_count(s) implies is_symbol(#[trigger] size_symbol(s, k))
        && size_of(s, k) >= 0 by {
        let at = s.len() - room_count(s) + k;
        assert(is_symbol(s[at]));
        lemma_symbol_value_range(s[at]);
        lemma_size_not_negative(symbol_value(s[at]), room_count(s) as int);
    }
}

/// Makes a token: `nft1` and 58 symbols drawn from `rng`.
pub fn generate_nft_id(rng: &mut StdRng) -> (nft_id: String)
    ensures
        nft_id@.len() == TOKEN_LEN,
        has_prefix(nft_id@),
        forall|i: int| 4 <= i < nft_id@.len() ==> is_symbol(#[trigger] nft_id@[i]),
        decode_failure(nft_id@) is None,
{
    let mut nft_id = "nft1".to_owned();
    proof {
        reveal_strlit("nft1");
    }
    let mut drawn: usize = 0;
    while drawn < 58
        invariant
            drawn <= 58,
            nft_id@.len() == 4 + drawn,
            has_prefix(nft_id@),
            forall|i: int| 4 <= i < nft_id@.len() ==> is_symbol(#[trigger] nft_id@[i]),
        decreases 58 - drawn,
    {
        let index = random_between(rng, 0, 61);
        let symbol = base62_symbol(index as u32);
        push_char(&mut nft_id, symbol);
        drawn = drawn + 1;
    }
    proof {
        lemma_full_token_can_be_read(nft_id@);
    }
    nft_id
}

} // verus!
