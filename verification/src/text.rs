//! Character and string helpers: ASCII lowercasing, lexicographic order,
//! splitting on a separator, and decimal formatting of small counters.

use vstd::prelude::*;
use vstd::string::StrSliceExecFns;

verus! {

/// Relies on String::push: appends the given character to the end of the string.
#[verifier::external_body]
pub(crate) fn push_char(s: &mut String, c: char)
    ensures
        final(s)@ == old(s)@.push(c),
{
    s.push(c)
}

/// ASCII lowercasing of a single character: `'A'..='Z'` shift down by 32,
/// everything else is unchanged.
pub open spec fn lower_char(c: char) -> char {
    if 'A' <= c && c <= 'Z' {
        ((c as u32) + 32) as char
    } else {
        c
    }
}

/// ASCII lowercasing of a character sequence, character by character.
pub open spec fn lower_seq(s: Seq<char>) -> Seq<char> {
    s.map_values(|c: char| lower_char(c))
}

/// Executable ASCII lowercasing of one character.
pub fn lower_char_exec(c: char) -> (r: char)
    ensures
        r == lower_char(c),
{
    match c {
        'A' => 'a',
        'B' => 'b',
        'C' => 'c',
        'D' => 'd',
        'E' => 'e',
        'F' => 'f',
        'G' => 'g',
        'H' => 'h',
        'I' => 'i',
        'J' => 'j',
        'K' => 'k',
        'L' => 'l',
        'M' => 'm',
        'N' => 'n',
        'O' => 'o',
        'P' => 'p',
        'Q' => 'q',
        'R' => 'r',
        'S' => 's',
        'T' => 't',
        'U' => 'u',
        'V' => 'v',
        'W' => 'w',
        'X' => 'x',
        'Y' => 'y',
        'Z' => 'z',
        _ => c,
    }
}

/// Executable ASCII lowercasing of a whole string.
pub fn to_lower(s: &str) -> (r: String)
    ensures
        r@ == lower_seq(s@),
{
    let n = s.unicode_len();
    let mut r = String::new();
    let mut i: usize = 0;
    while i < n
        invariant
            n == s@.len(),
            i <= n,
            r@ == lower_seq(s@.take(i as int)),
        decreases n - i,
    {
        let c = s.get_char(i);
        let lc = lower_char_exec(c);
        push_char(&mut r, lc);
        proof {
            assert(lower_seq(s@.take(i + 1)) =~= lower_seq(s@.take(i as int)).push(
                lower_char(s@[i as int]),
            ));
        }
        i += 1;
    }
    proof {
        assert(s@.take(n as int) =~= s@);
    }
    r
}

/// Equality of two string slices, character by character.
pub fn str_eq(a: &str, b: &str) -> (r: bool)
    ensures
        r == (a@ == b@),
{
    let na = a.unicode_len();
    let nb = b.unicode_len();
    if na != nb {
        return false;
    }
    let mut i: usize = 0;
    while i < na
        invariant
            na == a@.len(),
            nb == b@.len(),
            na == nb,
            i <= na,
            forall|j: int| 0 <= j < i ==> a@[j] == b@[j],
        decreases na - i,
    {
        if a.get_char(i) != b.get_char(i) {
            return false;
        }
        i += 1;
    }
    proof {
        assert(a@ =~= b@);
    }
    true
}

/// Lexicographic strict order on character sequences, comparing scalar values.
pub open spec fn lex_lt(a: Seq<char>, b: Seq<char>) -> bool
    decreases a.len(),
{
    if b.len() == 0 {
        false
    } else if a.len() == 0 {
        true
    } else if a[0] != b[0] {
        (a[0] as u32) < (b[0] as u32)
    } else {
        lex_lt(a.drop_first(), b.drop_first())
    }
}

/// Executable lexicographic comparison of two string slices.
pub fn str_lt(a: &str, b: &str) -> (r: bool)
    ensures
        r == lex_lt(a@, b@),
{
    let na = a.unicode_len();
    let nb = b.unicode_len();
    let mut i: usize = 0;
    proof {
        assert(a@.skip(0) =~= a@);
        assert(b@.skip(0) =~= b@);
    }
    while i < na && i < nb
        invariant
            na == a@.len(),
            nb == b@.len(),
            i <= na,
            i <= nb,
            lex_lt(a@, b@) == lex_lt(a@.skip(i as int), b@.skip(i as int)),
        decreases na - i,
    {
        let ca = a.get_char(i);
        let cb = b.get_char(i);
        if ca != cb {
            proof {
                assert(a@.skip(i as int)[0] == ca);
                assert(b@.skip(i as int)[0] == cb);
            }
            return (ca as u32) < (cb as u32);
        }
        proof {
            assert(a@.skip(i as int).drop_first() =~= a@.skip(i + 1));
            assert(b@.skip(i as int).drop_first() =~= b@.skip(i + 1));
        }
        i += 1;
    }
    proof {
        assert(a@.skip(i as int).len() == na - i);
        assert(b@.skip(i as int).len() == nb - i);
    }
    na < nb
}

/// Whether the string contains the given character.
pub fn contains_char(s: &str, c: char) -> (r: bool)
    ensures
        r == s@.contains(c),
{
    let n = s.unicode_len();
    let mut i: usize = 0;
    while i < n
        invariant
            n == s@.len(),
            i <= n,
            forall|j: int| 0 <= j < i ==> s@[j] != c,
        decreases n - i,
    {
        if s.get_char(i) == c {
            return true;
        }
        i += 1;
    }
    false
}

/// Splitting a character sequence on a separator, as a split on every
/// occurrence: the empty sequence yields one empty piece, and a separator
/// at either end yields an empty piece there.
pub open spec fn split_seq(s: Seq<char>, sep: char) -> Seq<Seq<char>>
    decreases s.len(),
{
    if s.len() == 0 {
        seq![Seq::<char>::empty()]
    } else if s[0] == sep {
        seq![Seq::<char>::empty()].add(split_seq(s.drop_first(), sep))
    } else {
        let rest = split_seq(s.drop_first(), sep);
        seq![seq![s[0]].add(rest[0])].add(rest.drop_first())
    }
}

/// A split always yields at least one piece.
pub proof fn lemma_split_seq_nonempty(s: Seq<char>, sep: char)
    ensures
        split_seq(s, sep).len() >= 1,
    decreases s.len(),
{
    if s.len() != 0 {
        lemma_split_seq_nonempty(s.drop_first(), sep);
    }
}

/// A sequence that contains the separator splits into at least two pieces.
pub proof fn lemma_split_seq_two(s: Seq<char>, sep: char)
    requires
        s.contains(sep),
    ensures
        split_seq(s, sep).len() >= 2,
    decreases s.len(),
{
    lemma_split_seq_nonempty(s, sep);
    if s[0] == sep {
        lemma_split_seq_nonempty(s.drop_first(), sep);
    } else {
        let i = choose|i: int| 0 <= i < s.len() && s[i] == sep;
        assert(s.drop_first()[i - 1] == sep);
        lemma_split_seq_two(s.drop_first(), sep);
    }
}

/// Executable split of a string slice on a separator character.
pub fn split_str(s: &str, sep: char) -> (r: Vec<String>)
    ensures
        r.deep_view() == split_seq(s@, sep),
{
    let ghost whole = split_seq(s@, sep);
    let n = s.unicode_len();
    let mut r: Vec<String> = Vec::new();
    let mut cur = String::new();
    let mut i: usize = 0;
    proof {
        lemma_split_seq_nonempty(s@, sep);
        assert(s@.skip(0) =~= s@);
    }
    while i < n
        invariant
            n == s@.len(),
            i <= n,
            split_seq(s@.skip(i as int), sep).len() >= 1,
            whole =~~= r.deep_view().add(
                seq![cur@.add(split_seq(s@.skip(i as int), sep)[0])].add(
                    split_seq(s@.skip(i as int), sep).drop_first(),
                ),
            ),
        decreases n - i,
    {
        let ghost tail = s@.skip(i as int);
        let ghost tail2 = s@.skip(i + 1);
        let ghost rprev = r.deep_view();
        let ghost curprev = cur@;
        proof {
            assert(tail[0] == s@[i as int]);
            assert(tail.drop_first() =~= tail2);
            lemma_split_seq_nonempty(tail2, sep);
        }
        let c = s.get_char(i);
        if c == sep {
            r.push(cur);
            cur = String::new();
            proof {
                assert(r.deep_view() =~~= rprev.push(curprev));
                assert(split_seq(tail, sep) =~~= seq![Seq::<char>::empty()].add(
                    split_seq(tail2, sep),
                ));
                assert(split_seq(tail, sep)[0] =~= Seq::<char>::empty());
                assert(curprev.add(split_seq(tail, sep)[0]) =~= curprev);
                assert(split_seq(tail, sep).drop_first() =~~= split_seq(tail2, sep));
            }
        } else {
            push_char(&mut cur, c);
            proof {
                let rest = split_seq(tail2, sep);
                assert(split_seq(tail, sep) =~~= seq![seq![c].add(rest[0])].add(rest.drop_first()));
                assert(cur@ =~= curprev.push(c));
                assert(curprev.add(split_seq(tail, sep)[0]) =~= cur@.add(rest[0]));
            }
        }
        i += 1;
        proof {
            assert(whole =~~= r.deep_view().add(
                seq![cur@.add(split_seq(s@.skip(i as int), sep)[0])].add(
                    split_seq(s@.skip(i as int), sep).drop_first(),
                ),
            ));
        }
    }
    let ghost rprev = r.deep_view();
    let ghost curprev = cur@;
    proof {
        assert(s@.skip(n as int) =~= Seq::<char>::empty());
        assert(split_seq(s@.skip(n as int), sep) =~~= seq![Seq::<char>::empty()]);
        assert(curprev.add(Seq::<char>::empty()) =~= curprev);
    }
    r.push(cur);
    proof {
        assert(r.deep_view() =~~= rprev.push(curprev));
        assert(r.deep_view() =~~= whole);
    }
    r
}

/// The character for a single decimal digit.
pub open spec fn digit_char(d: nat) -> char {
    if d == 0 {
        '0'
    } else if d == 1 {
        '1'
    } else if d == 2 {
        '2'
    } else if d == 3 {
        '3'
    } else if d == 4 {
        '4'
    } else if d == 5 {
        '5'
    } else if d == 6 {
        '6'
    } else if d == 7 {
        '7'
    } else if d == 8 {
        '8'
    } else {
        '9'
    }
}

/// The decimal digits of a number, most significant first.
pub open spec fn dec_rep(n: nat) -> Seq<char>
    decreases n,
{
    if n < 10 {
        seq![digit_char(n)]
    } else {
        dec_rep(n / 10).push(digit_char(n % 10))
    }
}

/// The decimal digits, zero-padded on the left to at least two digits.
pub open spec fn pad2(n: nat) -> Seq<char> {
    if n < 10 {
        seq!['0'].add(dec_rep(n))
    } else {
        dec_rep(n)
    }
}

/// Executable digit character.
fn digit_char_exec(d: usize) -> (r: char)
    requires
        d < 10,
    ensures
        r == digit_char(d as nat),
{
    match d {
        0 => '0',
        1 => '1',
        2 => '2',
        3 => '3',
        4 => '4',
        5 => '5',
        6 => '6',
        7 => '7',
        8 => '8',
        _ => '9',
    }
}

/// Executable decimal rendering, most significant digit first.
fn dec_rep_exec(n: usize) -> (r: String)
    ensures
        r@ == dec_rep(n as nat),
    decreases n,
{
    if n < 10 {
        let mut r = String::new();
        push_char(&mut r, digit_char_exec(n));
        proof {
            assert(r@ =~= seq![digit_char(n as nat)]);
        }
        r
    } else {
        let mut r = dec_rep_exec(n / 10);
        push_char(&mut r, digit_char_exec(n % 10));
        r
    }
}

/// Executable zero-padded decimal rendering.
pub fn pad2_exec(n: usize) -> (r: String)
    ensures
        r@ == pad2(n as nat),
{
    if n < 10 {
        let mut r = String::new();
        push_char(&mut r, '0');
        push_char(&mut r, digit_char_exec(n));
        proof {
            assert(r@ =~= seq!['0'].add(dec_rep(n as nat)));
        }
        r
    } else {
        dec_rep_exec(n)
    }
}

} // verus!
