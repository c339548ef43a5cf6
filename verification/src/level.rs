//! Token-budget levels: a level `n` stands for a budget of `512 * 2^n` output
//! tokens, and levels run from 0 to `MAX_LEVEL`.

use crate::text::{
    decimal, from_chars, parse_u32, push_decimal, push_str, read_u32, to_chars, trim, trim_bounds,
};
use vstd::arithmetic::power2::{lemma2_to64, pow2};
use vstd::bits::lemma_u32_shl_is_mul;
use vstd::prelude::*;

verus! {

/// The highest level there is.
pub const MAX_LEVEL: u32 = 7;

/// The number of output tokens that a level stands for.
pub open spec fn token_budget(level: u32) -> nat {
    512 * pow2(level as nat)
}

/// The number of output tokens that a level stands for, as `512 << level`
/// computes it in 32 bits: from level 23 on nothing of the 512 is left.
pub fn parse_level(level: u32) -> (r: u32)
    requires
        level < 32,
    ensures
        r == if level <= 22 {
            token_budget(level)
        } else {
            0
        },
        level <= MAX_LEVEL ==> 512 <= r <= 65536,
{
    proof {
        lemma2_to64();
        if level <= 22 {
            lemma_u32_shl_is_mul(512u32, level);
        } else {
            assert(512u32 << level == 0) by (bit_vector)
                requires
                    23 <= level < 32,
            ;
        }
    }
    512u32 << level
}

/// Why a text is no level.
#[derive(Clone, Copy, Debug, PartialEq, Eq)]
pub enum LevelError {
    /// It names a level above `MAX_LEVEL`.
    TooHigh(u32),
    /// What follows the `L` is no number that fits in 32 bits.
    NotANumber,
    /// It does not begin with `L`.
    NoPrefix,
}

/// The level that a text names: `L` and a number up to `MAX_LEVEL`, with
/// white space allowed around it.
pub open spec fn level_of(s: Seq<char>) -> Result<u32, LevelError> {
    let t = trim(s);
    if t.len() > 0 && t[0] == 'L' {
        match parse_u32(t.drop_first()) {
            Some(level) => if level <= MAX_LEVEL {
                Ok(level)
            } else {
                Err(LevelError::TooHigh(level))
            },
            None => Err(LevelError::NotANumber),
        }
    } else {
        Err(LevelError::NoPrefix)
    }
}

/// What is said of a text that is no level.
pub open spec fn level_error_text(e: LevelError) -> Seq<char> {
    match e {
        LevelError::TooHigh(level) => "Level too high: L"@ + decimal(level as nat) + ", max L"@
            + decimal(MAX_LEVEL as nat) + " ("@ + decimal(token_budget(MAX_LEVEL)) + " tokens)"@,
        LevelError::NotANumber => "Invalid level: expected L followed by a number (e.g., L7)"@,
        LevelError::NoPrefix => "Invalid format: expected L<level> (e.g., L7)"@,
    }
}

impl LevelError {
    /// What is said of a text that is no level.
    pub fn message(&self) -> (r: String)
        ensures
            r@ == level_error_text(*self),
    {
        match self {
            LevelError::TooHigh(level) => {
                let mut out: Vec<char> = Vec::new();
                push_str(&mut out, "Level too high: L");
                push_decimal(&mut out, *level);
                push_str(&mut out, ", max L");
                push_decimal(&mut out, MAX_LEVEL);
                push_str(&mut out, " (");
                push_decimal(&mut out, parse_level(MAX_LEVEL));
                push_str(&mut out, " tokens)");
                assert(out@ =~= level_error_text(*self));
                from_chars(&out)
            },
            LevelError::NotANumber => {
                "Invalid level: expected L followed by a number (e.g., L7)".to_owned()
            },
            LevelError::NoPrefix => "Invalid format: expected L<level> (e.g., L7)".to_owned(),
        }
    }
}

/// Reads a level from a text such as `L3`.
pub fn read_level(s: &str) -> (r: Result<u32, LevelError>)
    ensures
        r == level_of(s@),
{
    let chars = to_chars(s);
    let (a, b) = trim_bounds(&chars);
    let ghost t = trim(s@);
    if a < b && chars[a] == 'L' {
        assert(t[0] == 'L');
        assert(t.drop_first() =~= chars@.subrange(a as int + 1, b as int));
        match read_u32(&chars, a + 1, b) {
            Some(level) => if level <= MAX_LEVEL {
                Ok(level)
            } else {
                Err(LevelError::TooHigh(level))
            },
            None => Err(LevelError::NotANumber),
        }
    } else {
        if a < b {
            assert(t[0] == chars@[a as int]);
        }
        Err(LevelError::NoPrefix)
    }
}

/// Reads a level from a text such as `L3`, or says why the text is none.
pub fn get_level_from_str(s: &str) -> (r: Result<u32, String>)
    ensures
        match level_of(s@) {
            Ok(level) => r == Ok::<u32, String>(level),
            Err(e) => r is Err && r->Err_0@ == level_error_text(e),
        },
        r matches Ok(level) ==> level <= MAX_LEVEL,
{
    match read_level(s) {
        Ok(level) => Ok(level),
        Err(e) => Err(e.message()),
    }
}

} // verus!
