//! Credential helpers: username slugs, generated passwords, and the
//! password check used by authentication.

use vstd::prelude::*;

verus! {

/// The slug of a string: what `slugify::slugify` returns for it with no stop
/// words, `-` as the separator and no length cap. It depends on the input
/// characters alone.
pub uninterp spec fn slug_of(s: Seq<char>) -> Seq<char>;

/// Relies on `slugify::slugify`: lowercases, transliterates and
/// hyphen-separates its input, a function of the input characters alone.
#[verifier::external_body]
pub(crate) fn slugify_name(s: &str) -> (r: String)
    ensures
        r@ == slug_of(s@),
{
    slugify::slugify(s, "", "-", None)
}

/// Relies on `passwords::PasswordGenerator::generate_one`: with numbers,
/// lowercase, uppercase, symbols and spaces all enabled it rejects only a
/// length under the five enabled classes, and returns exactly `size`
/// characters. The characters are random; nothing else is assumed of them.
#[verifier::external_body]
pub fn generate_simple_password(size: usize) -> (r: String)
    requires
        5 <= size,
    ensures
        r@.len() == size as int,
{
    let pg = passwords::PasswordGenerator {
        length: size,
        numbers: true,
        lowercase_letters: true,
        uppercase_letters: true,
        symbols: true,
        spaces: true,
        exclude_similar_characters: false,
        strict: true,
    };
    pg.generate_one().unwrap()
}

/// Does a presented password match the stored credential? The store keeps
/// the generated credential itself, so this is a plain comparison.
pub fn verify_password(plain_password: &String, hashed_password: &String) -> (r: bool)
    ensures
        r == (plain_password@ == hashed_password@),
{
    plain_password.eq(hashed_password)
}

} // verus!
