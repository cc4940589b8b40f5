//! Ticket sequences: fixed-length strings of decimal digits.
use vstd::prelude::*;
use vstd::std_specs::iter::IteratorSpec;

verus! {

broadcast use vstd::string::axiom_spec_iter, vstd::string::next_postcondition;

/// Number of digits in every ticket sequence.
pub const SEQUENCE_DIGITS: u8 = 5;

pub open spec fn is_digit(c: char) -> bool {
    '0' <= c && c <= '9'
}

/// A well-formed sequence: exactly `len` characters, each a decimal digit.
pub open spec fn valid_sequence(s: Seq<char>, len: nat) -> bool {
    s.len() == len && forall|i: int| 0 <= i < s.len() ==> is_digit(#[trigger] s[i])
}

/// Number of positions `i < a.len()` where `a` and `b` hold the same character.
pub open spec fn seq_matches(a: Seq<char>, b: Seq<char>) -> nat
    decreases a.len(),
{
    if a.len() == 0 {
        0
    } else {
        seq_matches(a.drop_last(), b) + if a.last() == b[a.len() - 1] {
            1nat
        } else {
            0nat
        }
    }
}

pub proof fn lemma_seq_matches_bound(a: Seq<char>, b: Seq<char>)
    ensures
        seq_matches(a, b) <= a.len(),
    decreases a.len(),
{
    if a.len() > 0 {
        lemma_seq_matches_bound(a.drop_last(), b);
    }
}

/// Whether `sequence` is made of exactly `len` decimal digits.
pub fn is_valid_sequence(sequence: &str, len: u8) -> (r: bool)
    ensures
        r == valid_sequence(sequence@, len as nat),
{
    let mut chars = sequence.chars();
    let mut n: usize = 0;
    let ghost s = sequence@;
    while n < len as usize
        invariant
            n <= len,
            s == sequence@,
            chars.remaining() == s.skip(n as int),
            n <= s.len(),
            forall|i: int| 0 <= i < n ==> is_digit(#[trigger] s[i]),
        decreases len - n,
    {
        match chars.next() {
            None => {
                assert(s.skip(n as int).len() == 0);
                return false;
            },
            Some(c) => {
                assert(s.skip(n as int)[0] == s[n as int]);
                if !('0' <= c && c <= '9') {
                    return false;
                }
                assert(s.skip(n as int).drop_first() =~= s.skip(n + 1));
                n = n + 1;
            },
        }
    }
    match chars.next() {
        None => {
            assert(s.skip(n as int).len() == 0);
            true
        },
        Some(_) => false,
    }
}

/// Number of positions at which `a` and `b` hold the same character,
/// counted over the length of `a`.
pub fn count_seq_matches(a: &str, b: &str) -> (r: u8)
    requires
        a@.len() <= b@.len(),
        a@.len() <= 255,
    ensures
        r == seq_matches(a@, b@),
{
    let mut ca = a.chars();
    let mut cb = b.chars();
    let ghost sa = a@;
    let ghost sb = b@;
    let mut count: u8 = 0;
    let mut i: usize = 0;
    loop
        invariant
            sa == a@,
            sb == b@,
            sa.len() <= sb.len(),
            sa.len() <= 255,
            i <= sa.len(),
            ca.remaining() == sa.skip(i as int),
            cb.remaining() == sb.skip(i as int),
            count == seq_matches(sa.take(i as int), sb),
        decreases sa.len() - i,
    {
        proof {
            lemma_seq_matches_bound(sa.take(i as int), sb);
        }
        match ca.next() {
            None => {
                assert(sa.skip(i as int).len() == 0);
                assert(sa.take(i as int) =~= sa);
                return count;
            },
            Some(x) => {
                assert(sa.skip(i as int)[0] == sa[i as int]);
                assert(sb.skip(i as int).len() > 0);
                let y = cb.next();
                assert(sb.skip(i as int)[0] == sb[i as int]);
                assert(sa.take(i + 1).drop_last() =~= sa.take(i as int));
                assert(sa.skip(i as int).drop_first() =~= sa.skip(i + 1));
                assert(sb.skip(i as int).drop_first() =~= sb.skip(i + 1));
                if y == Some(x) {
                    count = count + 1;
                }
                i = i + 1;
            },
        }
    }
}

} // verus!
