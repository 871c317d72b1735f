//! Names for roots of the proxy, made of random letters and digits.

use vstd::prelude::*;
use vstd::string::*;

verus! {

/// The letters and digits that a name is made of.
pub open spec fn charset() -> Seq<char> {
    "ABCDEFGHIJKLMNOPQRSTUVWXYZabcdefghijklmnopqrstuvwxyz0123456789"@
}

/// The letter or digit for a byte, which goes through them again and again.
pub open spec fn letter(byte: u8) -> char {
    charset()[byte as int % 62]
}

/// The name that bytes make: a letter or digit for each.
pub open spec fn named(bytes: Seq<u8>) -> Seq<char> {
    Seq::new(bytes.len(), |i: int| letter(bytes[i]))
}

/// `getrandom::getrandom` fills eight bytes with random values, or fails where the system has
/// none to give. Which values they are is left unsaid: they are random.
#[verifier::external_body]
fn random_bytes() -> (r: Option<Vec<u8>>)
    ensures
        r matches Some(bytes) ==> bytes@.len() == 8,
{
    let mut buf = [0u8; 8];
    getrandom::getrandom(&mut buf).ok()?;
    Some(buf.to_vec())
}

/// The name that bytes make.
pub fn name_of(bytes: &Vec<u8>) -> (name: String)
    ensures
        name@ == named(bytes@),
{
    let charset = "ABCDEFGHIJKLMNOPQRSTUVWXYZabcdefghijklmnopqrstuvwxyz0123456789";
    proof {
        reveal_strlit("ABCDEFGHIJKLMNOPQRSTUVWXYZabcdefghijklmnopqrstuvwxyz0123456789");
    }
    let mut name = String::new();
    let mut i: usize = 0;
    while i < bytes.len()
        invariant
            i <= bytes@.len(),
            charset@ == self::charset(),
            charset@.len() == 62,
            is_ascii(charset),
            name@ == Seq::new(i as nat, |j: int| letter(bytes@[j])),
        decreases bytes@.len() - i,
    {
        let n: usize = bytes[i] as usize % 62;
        let ghost before = name@;
        name.append(charset.substring_ascii(n, n + 1));
        assert(charset@.subrange(n as int, n + 1) =~= seq![letter(bytes@[i as int])]);
        assert(name@ =~= before.push(letter(bytes@[i as int])));
        i += 1;
    }
    name
}

/// A random name of eight letters and digits; none where the system has no random values.
pub fn get_random_string() -> (name: Option<String>)
    ensures
        name matches Some(n) ==> exists|bytes: Seq<u8>|
            bytes.len() == 8 && n@ == #[trigger] named(bytes),
{
    name_drawn(random_bytes())
}

/// The name that drawn bytes make; none where there were none to draw.
pub fn name_drawn(drawn: Option<Vec<u8>>) -> (name: Option<String>)
    ensures
        match drawn {
            Some(bytes) => name matches Some(n) && n@ == named(bytes@),
            None => name is None,
        },
{
    match drawn {
        Some(bytes) => Some(name_of(&bytes)),
        None => None,
    }
}

} // verus!
