//! Random password generation from a selectable character set.

use vstd::prelude::*;
use vstd::string::{StrSliceExecFns, StringExecFns};
use crate::crypto::fill_random;
use crate::error::Error;

verus! {

/// Lowercase letters offered by the generator.
pub const LOWERCASE: &'static str = "abcdefghijklmnopqrstuvwxyz";

/// Uppercase letters offered by the generator.
pub const UPPERCASE: &'static str = "ABCDEFGHIJKLMNOPQRSTUVWXYZ";

/// Digits offered by the generator.
pub const NUMBERS: &'static str = "0123456789";

/// Symbols offered by the generator.
pub const SYMBOLS: &'static str = "!@#$%^&*()_+-=[]{}|;:,.<>?";

/// The characters the flags select, in the fixed order lowercase,
/// uppercase, digits, symbols.
pub open spec fn charset_spec(
    use_lowercase: bool,
    use_uppercase: bool,
    use_numbers: bool,
    use_symbols: bool,
) -> Seq<char> {
    (if use_lowercase {
        LOWERCASE@
    } else {
        Seq::empty()
    }) + (if use_uppercase {
        UPPERCASE@
    } else {
        Seq::empty()
    }) + (if use_numbers {
        NUMBERS@
    } else {
        Seq::empty()
    }) + (if use_symbols {
        SYMBOLS@
    } else {
        Seq::empty()
    })
}

/// Build the character set the flags select.
pub fn build_charset(
    use_lowercase: bool,
    use_uppercase: bool,
    use_numbers: bool,
    use_symbols: bool,
) -> (r: String)
    ensures
        r@ == charset_spec(use_lowercase, use_uppercase, use_numbers, use_symbols),
{
    let mut charset = String::new();
    if use_lowercase {
        charset.append(LOWERCASE);
    }
    if use_uppercase {
        charset.append(UPPERCASE);
    }
    if use_numbers {
        charset.append(NUMBERS);
    }
    if use_symbols {
        charset.append(SYMBOLS);
    }
    proof {
        assert(charset@ =~= charset_spec(use_lowercase, use_uppercase, use_numbers, use_symbols));
    }
    charset
}

/// Generate a random password of the requested length, each character drawn
/// from the selected set.
pub fn generate(
    length: usize,
    use_lowercase: bool,
    use_uppercase: bool,
    use_numbers: bool,
    use_symbols: bool,
) -> (r: Result<String, Error>)
    ensures
        length == 0 ==> (r matches Err(e) && e matches Error::InvalidInput(m)
            && m@ == "Password length must be greater than 0"@),
        length != 0 && charset_spec(use_lowercase, use_uppercase, use_numbers, use_symbols).len()
            == 0 ==> (r matches Err(e) && e matches Error::InvalidInput(m)
            && m@ == "At least one character type must be selected"@),
        length != 0 && charset_spec(use_lowercase, use_uppercase, use_numbers, use_symbols).len()
            != 0 ==> (r matches Ok(_) || r == Err::<String, Error>(Error::RandomnessFailure)),
        r matches Ok(p) ==> {
            &&& p@.len() == length
            &&& forall|i: int| 0 <= i < p@.len() ==> charset_spec(
                use_lowercase,
                use_uppercase,
                use_numbers,
                use_symbols,
            ).contains(#[trigger] p@[i])
        },
{
    let ghost cs = charset_spec(use_lowercase, use_uppercase, use_numbers, use_symbols);
    if length == 0 {
        return Err(Error::InvalidInput("Password length must be greater than 0".to_owned()));
    }
    let charset = build_charset(use_lowercase, use_uppercase, use_numbers, use_symbols);
    let charset_len = charset.as_str().unicode_len();
    if charset_len == 0 {
        return Err(Error::InvalidInput("At least one character type must be selected".to_owned()));
    }
    let random_bytes = match fill_random(length) {
        Ok(b) => b,
        Err(e) => return Err(e),
    };
    let mut password = String::new();
    let mut i: usize = 0;
    while i < length
        invariant
            cs == charset_spec(use_lowercase, use_uppercase, use_numbers, use_symbols),
            charset@ == cs,
            charset_len == cs.len(),
            charset_len > 0,
            random_bytes@.len() == length,
            i <= length,
            password@.len() == i,
            forall|j: int| 0 <= j < i ==> cs.contains(#[trigger] password@[j]),
        decreases length - i,
    {
        let b = random_bytes[i];
        let idx = (b as usize) % charset_len;
        let piece = charset.as_str().substring_char(idx, idx + 1);
        let ghost before = password@;
        password.append(piece);
        proof {
            assert(piece@ =~= seq![cs[idx as int]]);
            assert(password@ =~= before.push(cs[idx as int]));
            assert(cs.contains(cs[idx as int]));
        }
        i = i + 1;
    }
    Ok(password)
}

/// Generate a password with the default settings: 16 characters, all
/// character types.
pub fn generate_default() -> (r: Result<String, Error>)
    ensures
        r matches Ok(_) || r == Err::<String, Error>(Error::RandomnessFailure),
        r matches Ok(p) ==> {
            &&& p@.len() == 16
            &&& forall|i: int| 0 <= i < p@.len() ==> charset_spec(true, true, true, true).contains(
                #[trigger] p@[i],
            )
        },
{
    proof {
        reveal_strlit("abcdefghijklmnopqrstuvwxyz");
    }
    generate(16, true, true, true, true)
}

} // verus!
