//! Email address validation.
//!
//! An address is accepted when some substring of it is a word-bounded
//! `local@domain.label` form: a run of local characters, an `@`, a run of
//! domain characters, a dot, and a final label of at least two letters,
//! with a word boundary before the run and after the label.

use vstd::prelude::*;

verus! {

pub open spec fn is_alpha(c: char) -> bool {
    ('a' <= c && c <= 'z') || ('A' <= c && c <= 'Z')
}

pub open spec fn is_digit(c: char) -> bool {
    '0' <= c && c <= '9'
}

/// A word character, as word boundaries count them.
pub open spec fn is_word_char(c: char) -> bool {
    is_alpha(c) || is_digit(c) || c == '_'
}

/// Characters allowed before the `@`.
pub open spec fn is_local_char(c: char) -> bool {
    is_word_char(c) || c == '.' || c == '%' || c == '+' || c == '-'
}

/// Characters allowed between the `@` and the final dot.
pub open spec fn is_domain_char(c: char) -> bool {
    is_alpha(c) || is_digit(c) || c == '.' || c == '-'
}

/// Characters allowed in the final label. The validation rule's letter
/// class also carries a literal bar, which is kept as it is.
pub open spec fn is_tld_char(c: char) -> bool {
    is_alpha(c) || c == '|'
}

/// Is the character at position `t` a word character? Positions outside
/// the string count as non-word.
pub open spec fn word_at(s: Seq<char>, t: int) -> bool {
    0 <= t < s.len() && is_word_char(s[t])
}

/// A word boundary sits at `pos` when exactly one of its two sides is a
/// word character.
pub open spec fn word_boundary(s: Seq<char>, pos: int) -> bool {
    word_at(s, pos - 1) != word_at(s, pos)
}

/// `s[i..j)` is a non-empty run of local characters opened by a word
/// boundary.
pub open spec fn local_part_at(s: Seq<char>, i: int, j: int) -> bool {
    &&& 0 <= i < j
    &&& forall|t: int| i <= t < j ==> is_local_char(#[trigger] s[t])
    &&& word_boundary(s, i)
}

/// `s[j+1..k)` is a non-empty run of domain characters and `s[k]` is the
/// dot before the final label.
pub open spec fn domain_part_at(s: Seq<char>, j: int, k: int) -> bool {
    &&& j + 1 < k < s.len()
    &&& s[k] == '.'
    &&& forall|t: int| j < t < k ==> is_domain_char(#[trigger] s[t])
}

/// `s[k+1..l)` is a final label of at least two label characters closed by
/// a word boundary.
pub open spec fn tld_part_at(s: Seq<char>, k: int, l: int) -> bool {
    &&& k + 3 <= l <= s.len()
    &&& forall|t: int| k < t < l ==> is_tld_char(#[trigger] s[t])
    &&& word_boundary(s, l)
}

/// A full address form occurs at positions `i < j < k < l`.
pub open spec fn email_match_at(s: Seq<char>, i: int, j: int, k: int, l: int) -> bool {
    &&& 0 <= j < s.len() && s[j] == '@'
    &&& local_part_at(s, i, j)
    &&& domain_part_at(s, j, k)
    &&& tld_part_at(s, k, l)
}

/// An address is valid when the form occurs somewhere in it.
pub open spec fn is_valid_email(s: Seq<char>) -> bool {
    exists|i: int, j: int, k: int, l: int| email_match_at(s, i, j, k, l)
}

fn alpha_char(c: char) -> (r: bool)
    ensures
        r == is_alpha(c),
{
    ('a' <= c && c <= 'z') || ('A' <= c && c <= 'Z')
}

fn word_char(c: char) -> (r: bool)
    ensures
        r == is_word_char(c),
{
    alpha_char(c) || ('0' <= c && c <= '9') || c == '_'
}

fn local_char(c: char) -> (r: bool)
    ensures
        r == is_local_char(c),
{
    word_char(c) || c == '.' || c == '%' || c == '+' || c == '-'
}

fn domain_char(c: char) -> (r: bool)
    ensures
        r == is_domain_char(c),
{
    alpha_char(c) || ('0' <= c && c <= '9') || c == '.' || c == '-'
}

fn tld_char(c: char) -> (r: bool)
    ensures
        r == is_tld_char(c),
{
    alpha_char(c) || c == '|'
}

fn boundary_at(s: &str, n: usize, pos: usize) -> (r: bool)
    requires
        n == s@.len(),
        pos <= n,
    ensures
        r == word_boundary(s@, pos as int),
{
    let left = pos > 0 && word_char(s.get_char(pos - 1));
    let right = pos < n && word_char(s.get_char(pos));
    left != right
}

fn exists_start(s: &str, n: usize, j: usize) -> (r: bool)
    requires
        n == s@.len(),
        j < n,
    ensures
        r == exists|i: int| local_part_at(s@, i, j as int),
{
    let mut i: usize = j;
    loop
        invariant
            n == s@.len(),
            j < n,
            i <= j,
            forall|t: int| i <= t < j ==> is_local_char(#[trigger] s@[t]),
            forall|c: int| i <= c < j ==> !local_part_at(s@, c, j as int),
        decreases i,
    {
        if i == 0 {
            assert(forall|c: int| !local_part_at(s@, c, j as int));
            return false;
        }
        let c = s.get_char(i - 1);
        if !local_char(c) {
            assert forall|cand: int| !local_part_at(s@, cand, j as int) by {
                if cand < i {
                    assert(cand <= i - 1 < j ==> !is_local_char(s@[i - 1]));
                }
            }
            return false;
        }
        i = i - 1;
        if boundary_at(s, n, i) {
            assert(local_part_at(s@, i as int, j as int));
            return true;
        }
    }
}

fn exists_tld(s: &str, n: usize, k: usize) -> (r: bool)
    requires
        n == s@.len(),
        k < n,
    ensures
        r == exists|l: int| tld_part_at(s@, k as int, l),
{
    let mut l: usize = k + 1;
    loop
        invariant
            n == s@.len(),
            k < n,
            k + 1 <= l <= n,
            forall|t: int| k < t < l ==> is_tld_char(#[trigger] s@[t]),
            forall|m: int| m < l ==> !tld_part_at(s@, k as int, m),
        decreases n - l,
    {
        if l - k >= 3 {
            if boundary_at(s, n, l) {
                assert(tld_part_at(s@, k as int, l as int));
                return true;
            }
        }
        if l == n {
            assert(forall|m: int| !tld_part_at(s@, k as int, m));
            return false;
        }
        let c = s.get_char(l);
        if !tld_char(c) {
            assert forall|m: int| !tld_part_at(s@, k as int, m) by {
                if m > l {
                    assert(k < l < m ==> !is_tld_char(s@[l as int]));
                }
            }
            return false;
        }
        l = l + 1;
    }
}

fn exists_domain(s: &str, n: usize, j: usize) -> (r: bool)
    requires
        n == s@.len(),
        j < n,
        s@[j as int] == '@',
    ensures
        r == exists|k: int, l: int| domain_part_at(s@, j as int, k) && tld_part_at(s@, k, l),
{
    let mut k: usize = j + 1;
    loop
        invariant
            n == s@.len(),
            j < n,
            j + 1 <= k <= n,
            forall|t: int| j < t < k ==> is_domain_char(#[trigger] s@[t]),
            forall|kk: int, l: int|
                kk < k ==> !(domain_part_at(s@, j as int, kk) && tld_part_at(s@, kk, l)),
        decreases n - k,
    {
        if k == n {
            assert(forall|kk: int, l: int|
                !(domain_part_at(s@, j as int, kk) && tld_part_at(s@, kk, l)));
            return false;
        }
        let c = s.get_char(k);
        if c == '.' && k > j + 1 {
            if exists_tld(s, n, k) {
                proof {
                    let l = choose|l: int| tld_part_at(s@, k as int, l);
                    assert(domain_part_at(s@, j as int, k as int));
                    assert(domain_part_at(s@, j as int, k as int) && tld_part_at(
                        s@,
                        k as int,
                        l,
                    ));
                }
                return true;
            }
        }
        if !domain_char(c) {
            assert forall|kk: int, l: int|
                !(domain_part_at(s@, j as int, kk) && tld_part_at(s@, kk, l)) by {
                if kk > k {
                    assert(j < k < kk ==> !is_domain_char(s@[k as int]));
                }
            }
            return false;
        }
        k = k + 1;
    }
}

/// Does the string hold a valid address form?
pub fn email_matches(s: &str) -> (r: bool)
    ensures
        r == is_valid_email(s@),
{
    let n = s.unicode_len();
    let mut j: usize = 0;
    loop
        invariant
            n == s@.len(),
            j <= n,
            forall|i: int, jj: int, k: int, l: int| jj < j ==> !email_match_at(s@, i, jj, k, l),
        decreases n - j,
    {
        if j == n {
            assert(forall|i: int, jj: int, k: int, l: int| !email_match_at(s@, i, jj, k, l));
            return false;
        }
        let c = s.get_char(j);
        if c == '@' {
            if exists_start(s, n, j) {
                if exists_domain(s, n, j) {
                    proof {
                        let i = choose|i: int| local_part_at(s@, i, j as int);
                        let (k, l) = choose|k: int, l: int|
                            domain_part_at(s@, j as int, k) && tld_part_at(s@, k, l);
                        assert(email_match_at(s@, i, j as int, k, l));
                    }
                    return true;
                }
            }
        }
        j = j + 1;
    }
}

/// Accept a well-formed address, reject a malformed one before any mutation.
pub fn email_validator(address: &String) -> (r: Result<(), crate::model::LedgerError>)
    ensures
        r matches Ok(u) <==> is_valid_email(address@),
        r is Err ==> r == Err::<(), crate::model::LedgerError>(
            crate::model::LedgerError::Validation,
        ),
{
    if email_matches(address.as_str()) {
        Ok(())
    } else {
        Err(crate::model::LedgerError::Validation)
    }
}

} // verus!
