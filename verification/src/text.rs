//! Character-level helpers shared by the store and the renderer: string
//! equality, decimal and hexadecimal rendering, lexicographic order,
//! whitespace tokenization and joining.

use vstd::prelude::*;
use vstd::string::StrSliceExecFns;
use vstd::string::StringExecFns;

verus! {

/// Character-for-character equality of two string slices.
pub fn str_eq(a: &str, b: &str) -> (r: bool)
    ensures
        r == (a@ == b@),
{
    let alen = a.unicode_len();
    let blen = b.unicode_len();
    if alen != blen {
        return false;
    }
    let mut i: usize = 0;
    while i < alen
        invariant
            alen == a@.len(),
            blen == b@.len(),
            alen == blen,
            i <= alen,
            forall|j: int| 0 <= j < i ==> a@[j] == b@[j],
        decreases alen - i,
    {
        if a.get_char(i) != b.get_char(i) {
            return false;
        }
        i += 1;
    }
    proof {
        assert(a@ =~= b@);
    }
    true
}

/// The character that renders one base-16 digit, upper case.
pub open spec fn digit_char(d: int) -> char {
    if d == 0 {
        '0'
    } else if d == 1 {
        '1'
    } else if d == 2 {
        '2'
    } else if d == 3 {
        '3'
    } else if d == 4 {
        '4'
    } else if d == 5 {
        '5'
    } else if d == 6 {
        '6'
    } else if d == 7 {
        '7'
    } else if d == 8 {
        '8'
    } else if d == 9 {
        '9'
    } else if d == 10 {
        'A'
    } else if d == 11 {
        'B'
    } else if d == 12 {
        'C'
    } else if d == 13 {
        'D'
    } else if d == 14 {
        'E'
    } else {
        'F'
    }
}

/// A one-character string slice for one base-16 digit, upper case.
fn digit_str(d: u64) -> (r: &'static str)
    requires
        d < 16,
    ensures
        r@ =~= seq![digit_char(d as int)],
{
    if d == 0 {
        proof {
            reveal_strlit("0");
        }
        "0"
    } else if d == 1 {
        proof {
            reveal_strlit("1");
        }
        "1"
    } else if d == 2 {
        proof {
            reveal_strlit("2");
        }
        "2"
    } else if d == 3 {
        proof {
            reveal_strlit("3");
        }
        "3"
    } else if d == 4 {
        proof {
            reveal_strlit("4");
        }
        "4"
    } else if d == 5 {
        proof {
            reveal_strlit("5");
        }
        "5"
    } else if d == 6 {
        proof {
            reveal_strlit("6");
        }
        "6"
    } else if d == 7 {
        proof {
            reveal_strlit("7");
        }
        "7"
    } else if d == 8 {
        proof {
            reveal_strlit("8");
        }
        "8"
    } else if d == 9 {
        proof {
            reveal_strlit("9");
        }
        "9"
    } else if d == 10 {
        proof {
            reveal_strlit("A");
        }
        "A"
    } else if d == 11 {
        proof {
            reveal_strlit("B");
        }
        "B"
    } else if d == 12 {
        proof {
            reveal_strlit("C");
        }
        "C"
    } else if d == 13 {
        proof {
            reveal_strlit("D");
        }
        "D"
    } else if d == 14 {
        proof {
            reveal_strlit("E");
        }
        "E"
    } else {
        proof {
            reveal_strlit("F");
        }
        "F"
    }
}

/// The decimal rendering of a non-negative number, most significant digit
/// first, with no leading zeros (a single zero for zero).
pub open spec fn u64_dec(n: int) -> Seq<char>
    decreases n,
{
    if n < 10 {
        seq![digit_char(n)]
    } else {
        u64_dec(n / 10).push(digit_char(n % 10))
    }
}

/// Render a number in decimal.
pub fn u64_to_dec(n: u64) -> (r: String)
    ensures
        r@ == u64_dec(n as int),
    decreases n,
{
    if n < 10 {
        let r = String::from_str(digit_str(n));
        proof {
            assert(r@ =~= u64_dec(n as int));
        }
        r
    } else {
        let mut r = u64_to_dec(n / 10);
        r.append(digit_str(n % 10));
        proof {
            assert(r@ =~= u64_dec(n as int));
        }
        r
    }
}

/// The upper-case hexadecimal rendering of a byte sequence: two digits for
/// each byte, in order.
pub open spec fn hex_upper(bytes: Seq<u8>) -> Seq<char>
    decreases bytes.len(),
{
    if bytes.len() == 0 {
        Seq::empty()
    } else {
        hex_upper(bytes.drop_last()) + seq![
            digit_char(bytes.last() as int / 16),
            digit_char(bytes.last() as int % 16),
        ]
    }
}

/// Render the UTF-8 bytes of a string slice in upper-case hexadecimal.
#[verifier::loop_isolation(false)]
pub fn hex_upper_str(s: &str) -> (r: String)
    ensures
        r@ == hex_upper(vstd::utf8::encode_utf8(s@)),
{
    let bytes = s.as_bytes();
    let mut r = String::new();
    let mut i: usize = 0;
    while i < bytes.len()
        invariant
            i <= bytes@.len(),
            r@ == hex_upper(bytes@.take(i as int)),
        decreases bytes@.len() - i,
    {
        let b = bytes[i];
        r.append(digit_str((b / 16) as u64));
        r.append(digit_str((b % 16) as u64));
        proof {
            assert(bytes@.take(i + 1).drop_last() =~= bytes@.take(i as int));
            assert(bytes@.take(i + 1).last() == bytes@[i as int]);
            assert(r@ =~= hex_upper(bytes@.take(i + 1)));
        }
        i += 1;
    }
    proof {
        assert(bytes@.take(bytes@.len() as int) =~= bytes@);
        assert(bytes@ == vstd::string::StringSliceAdditionalSpecFns::spec_bytes(s));
        assert(bytes@ == vstd::utf8::encode_utf8(s@));
    }
    r
}

/// Lexicographic order on character sequences, by code point; the order in
/// which rendered group ids are sorted.
pub open spec fn lex_le(a: Seq<char>, b: Seq<char>) -> bool
    decreases a.len(),
{
    if a.len() == 0 {
        true
    } else if b.len() == 0 {
        false
    } else if (a[0] as u32) < (b[0] as u32) {
        true
    } else if (a[0] as u32) > (b[0] as u32) {
        false
    } else {
        lex_le(a.drop_first(), b.drop_first())
    }
}

/// Compare two string slices in lexicographic order, from position `i` on.
fn lex_le_from(a: &str, b: &str, i: usize) -> (r: bool)
    requires
        i <= a@.len(),
        i <= b@.len(),
    ensures
        r == lex_le(a@.skip(i as int), b@.skip(i as int)),
    decreases a@.len() - i,
{
    let alen = a.unicode_len();
    let blen = b.unicode_len();
    if i == alen {
        return true;
    }
    if i == blen {
        return false;
    }
    let ca = a.get_char(i) as u32;
    let cb = b.get_char(i) as u32;
    if ca < cb {
        true
    } else if ca > cb {
        false
    } else {
        let r = lex_le_from(a, b, i + 1);
        proof {
            assert(a@.skip(i as int).drop_first() =~= a@.skip(i + 1));
            assert(b@.skip(i as int).drop_first() =~= b@.skip(i + 1));
        }
        r
    }
}

/// Compare two string slices in lexicographic order.
pub fn lex_le_str(a: &str, b: &str) -> (r: bool)
    ensures
        r == lex_le(a@, b@),
{
    let r = lex_le_from(a, b, 0);
    proof {
        assert(a@.skip(0) =~= a@);
        assert(b@.skip(0) =~= b@);
    }
    r
}

/// The views of a sequence of strings.
pub open spec fn views_of(s: Seq<String>) -> Seq<Seq<char>> {
    s.map_values(|x: String| x@)
}

/// Where a string belongs in a sorted sequence: before the first element
/// strictly greater than it, after every element less than or equal to it.
pub open spec fn insert_lex(e: Seq<char>, s: Seq<Seq<char>>) -> Seq<Seq<char>>
    decreases s.len(),
{
    if s.len() == 0 {
        seq![e]
    } else if lex_le(s[0], e) {
        seq![s[0]] + insert_lex(e, s.drop_first())
    } else {
        seq![e] + s
    }
}

/// Sorting by repeated insertion, in input order: the stable sort of a
/// sequence of character sequences under `lex_le`.
pub open spec fn sort_lex(s: Seq<Seq<char>>) -> Seq<Seq<char>>
    decreases s.len(),
{
    if s.len() == 0 {
        Seq::empty()
    } else {
        insert_lex(s.last(), sort_lex(s.drop_last()))
    }
}

proof fn lemma_insert_lex_at(e: Seq<char>, s: Seq<Seq<char>>, p: int)
    requires
        0 <= p <= s.len(),
        forall|j: int| 0 <= j < p ==> lex_le(s[j], e),
        p < s.len() ==> !lex_le(s[p], e),
    ensures
        insert_lex(e, s) =~= s.take(p) + seq![e] + s.skip(p),
    decreases s.len(),
{
    if s.len() == 0 {
        assert(insert_lex(e, s) =~= s.take(p) + seq![e] + s.skip(p));
    } else if p == 0 {
        assert(insert_lex(e, s) =~= seq![e] + s);
        assert(seq![e] + s =~= s.take(0) + seq![e] + s.skip(0));
    } else {
        assert(lex_le(s[0], e));
        let d = s.drop_first();
        assert(forall|j: int| 0 <= j < p - 1 ==> d[j] == s[j + 1]);
        lemma_insert_lex_at(e, d, p - 1);
        assert(insert_lex(e, s) == seq![s[0]] + insert_lex(e, d));
        assert(seq![s[0]] + (d.take(p - 1) + seq![e] + d.skip(p - 1)) =~= s.take(p) + seq![e]
            + s.skip(p));
    }
}

/// Insert a string into a sorted vector, before the first greater element.
#[verifier::loop_isolation(false)]
pub fn insert_lex_vec(v: &mut Vec<String>, e: String)
    ensures
        views_of(final(v)@) == insert_lex(e@, views_of(old(v)@)),
{
    let mut p: usize = 0;
    while p < v.len() && lex_le_str(v[p].as_str(), e.as_str())
        invariant
            p <= v@.len(),
            v == old(v),
            forall|j: int| 0 <= j < p ==> lex_le(v@[j]@, e@),
        decreases v@.len() - p,
    {
        p += 1;
    }
    proof {
        assert forall|j: int| 0 <= j < p implies lex_le(views_of(v@)[j], e@) by {
            assert(views_of(v@)[j] == v@[j]@);
        }
        lemma_insert_lex_at(e@, views_of(v@), p as int);
    }
    v.insert(p, e);
    proof {
        assert(views_of(v@) =~= views_of(old(v)@).take(p as int) + seq![e@] + views_of(
            old(v)@,
        ).skip(p as int));
    }
}

/// Sort a vector of strings in lexicographic order, stably.
#[verifier::loop_isolation(false)]
pub fn sort_lex_vec(input: &Vec<String>) -> (r: Vec<String>)
    ensures
        views_of(r@) == sort_lex(views_of(input@)),
{
    let mut r: Vec<String> = Vec::new();
    let mut i: usize = 0;
    proof {
        assert(views_of(r@) =~= sort_lex(views_of(input@.take(0))));
    }
    while i < input.len()
        invariant
            i <= input@.len(),
            views_of(r@) == sort_lex(views_of(input@.take(i as int))),
        decreases input@.len() - i,
    {
        insert_lex_vec(&mut r, input[i].clone());
        proof {
            assert(views_of(input@.take(i + 1)).drop_last() =~= views_of(input@.take(i as int)));
            assert(views_of(input@.take(i + 1)).last() == input@[i as int]@);
        }
        i += 1;
    }
    proof {
        assert(input@.take(input@.len() as int) =~= input@);
    }
    r
}

/// The concatenation of parts with a separator between neighbours.
pub open spec fn join_chars(parts: Seq<Seq<char>>, sep: Seq<char>) -> Seq<char>
    decreases parts.len(),
{
    if parts.len() == 0 {
        Seq::empty()
    } else if parts.len() == 1 {
        parts[0]
    } else {
        join_chars(parts.drop_last(), sep) + sep + parts.last()
    }
}

/// Join strings with a separator.
#[verifier::loop_isolation(false)]
pub fn join_strs(v: &Vec<String>, sep: &str) -> (r: String)
    ensures
        r@ == join_chars(views_of(v@), sep@),
{
    let mut r = String::new();
    let mut i: usize = 0;
    while i < v.len()
        invariant
            i <= v@.len(),
            r@ == join_chars(views_of(v@.take(i as int)), sep@),
        decreases v@.len() - i,
    {
        if i > 0 {
            r.append(sep);
        }
        r.append(v[i].as_str());
        proof {
            assert(views_of(v@.take(i + 1)).drop_last() =~= views_of(v@.take(i as int)));
            assert(views_of(v@.take(i + 1)).last() == v@[i as int]@);
            if i == 0 {
                assert(r@ =~= join_chars(views_of(v@.take(i + 1)), sep@));
            } else {
                assert(views_of(v@.take(i + 1)).len() == i + 1 >= 2);
                assert(r@ =~= join_chars(views_of(v@.take(i + 1)), sep@));
            }
        }
        i += 1;
    }
    proof {
        assert(v@.take(v@.len() as int) =~= v@);
    }
    r
}

/// Whitespace, as the set of code points with the White_Space property.
pub open spec fn is_space(c: char) -> bool {
    let u = c as u32;
    u == 0x20 || (0x09 <= u && u <= 0x0D) || u == 0x85 || u == 0xA0 || u == 0x1680 || (0x2000 <= u
        && u <= 0x200A) || u == 0x2028 || u == 0x2029 || u == 0x202F || u == 0x205F || u == 0x3000
}

/// Whether a character is whitespace.
fn is_space_c(c: char) -> (r: bool)
    ensures
        r == is_space(c),
{
    let u = c as u32;
    u == 0x20 || (0x09 <= u && u <= 0x0D) || u == 0x85 || u == 0xA0 || u == 0x1680 || (0x2000 <= u
        && u <= 0x200A) || u == 0x2028 || u == 0x2029 || u == 0x202F || u == 0x205F || u == 0x3000
}

/// The length of the leading run of non-whitespace characters.
pub open spec fn token_len(s: Seq<char>) -> int
    decreases s.len(),
{
    if s.len() == 0 || is_space(s[0]) {
        0
    } else {
        1 + token_len(s.drop_first())
    }
}

proof fn lemma_token_len(s: Seq<char>)
    ensures
        0 <= token_len(s) <= s.len(),
        forall|j: int| 0 <= j < token_len(s) ==> !is_space(s[j]),
        token_len(s) < s.len() ==> is_space(s[token_len(s)]),
    decreases s.len(),
{
    if s.len() > 0 && !is_space(s[0]) {
        let d = s.drop_first();
        lemma_token_len(d);
        assert forall|j: int| 0 <= j < token_len(s) implies !is_space(s[j]) by {
            if j > 0 {
                assert(d[j - 1] == s[j]);
                assert(!is_space(d[j - 1]));
            }
        }
        if token_len(s) < s.len() {
            assert(d[token_len(d)] == s[token_len(s)]);
        }
    }
}

/// The whitespace-delimited tokens of a character sequence, in order.
pub open spec fn tokens(s: Seq<char>) -> Seq<Seq<char>>
    decreases s.len(),
    via tokens_dec
{
    if s.len() == 0 {
        Seq::empty()
    } else if is_space(s[0]) {
        tokens(s.drop_first())
    } else {
        seq![s.take(token_len(s))] + tokens(s.skip(token_len(s)))
    }
}

#[via_fn]
proof fn tokens_dec(s: Seq<char>) {
    if s.len() > 0 && !is_space(s[0]) {
        lemma_token_len(s);
    }
}

proof fn lemma_tokens_skip_space(s: Seq<char>, i: int)
    requires
        0 <= i < s.len(),
        is_space(s[i]),
    ensures
        tokens(s.skip(i)) == tokens(s.skip(i + 1)),
{
    assert(s.skip(i)[0] == s[i]);
    assert(s.skip(i).drop_first() =~= s.skip(i + 1));
}

proof fn lemma_token_len_chars(u: Seq<char>, t: int)
    requires
        0 <= t <= u.len(),
        forall|k: int| 0 <= k < t ==> !is_space(u[k]),
        t < u.len() ==> is_space(u[t]),
    ensures
        token_len(u) == t,
    decreases t,
{
    if t == 0 {
    } else {
        assert(!is_space(u[0]));
        let d = u.drop_first();
        assert forall|k: int| 0 <= k < t - 1 implies !is_space(d[k]) by {
            assert(d[k] == u[k + 1]);
        }
        if t - 1 < d.len() {
            assert(d[t - 1] == u[t]);
        }
        lemma_token_len_chars(d, t - 1);
    }
}

proof fn lemma_tokens_at_token(s: Seq<char>, i: int, j: int)
    requires
        0 <= i < j <= s.len(),
        forall|k: int| i <= k < j ==> !is_space(s[k]),
        j < s.len() ==> is_space(s[j]),
    ensures
        tokens(s.skip(i)) == seq![s.subrange(i, j)] + tokens(s.skip(j)),
{
    let u = s.skip(i);
    assert forall|k: int| 0 <= k < j - i implies !is_space(u[k]) by {
        assert(u[k] == s[i + k]);
    }
    if j - i < u.len() {
        assert(u[j - i] == s[j]);
    }
    lemma_token_len_chars(u, j - i);
    assert(!is_space(u[0]));
    assert(u.take(j - i) =~= s.subrange(i, j));
    assert(u.skip(j - i) =~= s.skip(j));
}

/// The whitespace-delimited tokens of a string slice, in order.
#[verifier::loop_isolation(false)]
pub fn split_tokens(s: &str) -> (r: Vec<String>)
    ensures
        views_of(r@) == tokens(s@),
{
    let n = s.unicode_len();
    let mut parts: Vec<String> = Vec::new();
    let mut i: usize = 0;
    proof {
        assert(s@.skip(0) =~= s@);
        assert(views_of(parts@) + tokens(s@) =~= tokens(s@));
    }
    while i < n
        invariant
            i <= n,
            tokens(s@) == views_of(parts@) + tokens(s@.skip(i as int)),
        decreases n - i,
    {
        let c = s.get_char(i);
        if is_space_c(c) {
            proof {
                lemma_tokens_skip_space(s@, i as int);
            }
            i += 1;
        } else {
            let ghost parts_before = parts@;
            let mut j: usize = i + 1;
            while j < n && !is_space_c(s.get_char(j))
                invariant
                    i < j <= n,
                    forall|k: int| i <= k < j ==> !is_space(s@[k]),
                decreases n - j,
            {
                j += 1;
            }
            let tok = s.substring_char(i, j);
            proof {
                lemma_tokens_at_token(s@, i as int, j as int);
            }
            parts.push(String::from_str(tok));
            proof {
                assert(views_of(parts@) =~= views_of(parts_before).push(s@.subrange(
                    i as int,
                    j as int,
                )));
                assert(views_of(parts@) + tokens(s@.skip(j as int)) =~= views_of(parts_before) + (
                seq![s@.subrange(i as int, j as int)] + tokens(s@.skip(j as int))));
            }
            i = j;
        }
    }
    proof {
        assert(s@.skip(n as int) =~= Seq::<char>::empty());
        assert(views_of(parts@) + tokens(s@.skip(n as int)) =~= views_of(parts@));
    }
    parts
}

/// The first whitespace-delimited token of a name, or empty when there is
/// none.
pub open spec fn first_name_of(s: Seq<char>) -> Seq<char> {
    if tokens(s).len() == 0 {
        Seq::empty()
    } else {
        tokens(s)[0]
    }
}

/// The remaining tokens of a name, rejoined with single spaces; empty when
/// the name has at most one token.
pub open spec fn last_name_of(s: Seq<char>) -> Seq<char> {
    if tokens(s).len() == 0 {
        Seq::empty()
    } else {
        join_chars(tokens(s).skip(1), " "@)
    }
}

/// Split a full name into a first name (the first token) and a last name
/// (the remaining tokens joined with single spaces). Runs of whitespace
/// never produce empty tokens.
#[verifier::loop_isolation(false)]
pub fn split_name(full_name: &str) -> (r: (String, String))
    ensures
        r.0@ == first_name_of(full_name@),
        r.1@ == last_name_of(full_name@),
{
    let parts = split_tokens(full_name);
    if parts.len() == 0 {
        return (String::new(), String::new());
    }
    let first = parts[0].clone();
    let mut rest: Vec<String> = Vec::new();
    let mut k: usize = 1;
    while k < parts.len()
        invariant
            1 <= k <= parts@.len(),
            views_of(rest@) == views_of(parts@).subrange(1, k as int),
        decreases parts@.len() - k,
    {
        rest.push(parts[k].clone());
        proof {
            assert(views_of(rest@) =~= views_of(parts@).subrange(1, k + 1));
        }
        k += 1;
    }
    let last = join_strs(&rest, " ");
    proof {
        assert(views_of(rest@) =~= tokens(full_name@).skip(1));
        assert(first@ == views_of(parts@)[0]);
    }
    (first, last)
}

} // verus!
