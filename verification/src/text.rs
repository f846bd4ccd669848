//! Character-level utilities: digit tests, conversion between `&str` and
//! `Vec<char>`, and the digit-grouping formatter.

use vstd::prelude::*;

verus! {

/// ASCII decimal digit.
pub open spec fn is_digit_char(c: char) -> bool {
    48 <= c as int <= 57
}

/// Numeric value of an ASCII digit.
pub open spec fn digit_val(c: char) -> int {
    c as int - 48
}

/// The characters of `s`, as a vector.
pub fn chars_of(s: &str) -> (v: Vec<char>)
    ensures
        v@ == s@,
{
    let n = s.unicode_len();
    let mut v: Vec<char> = Vec::new();
    let mut i: usize = 0;
    while i < n
        invariant
            n == s@.len(),
            i <= n,
            v@ == s@.take(i as int),
        decreases n - i,
    {
        let c = s.get_char(i);
        v.push(c);
        proof {
            assert(s@.take(i + 1 as int) =~= s@.take(i as int).push(s@[i as int]));
        }
        i = i + 1;
    }
    proof {
        assert(s@.take(n as int) =~= s@);
    }
    v
}

/// Builds a `String` from a vector of characters.
///
/// Relies on `String::from_iter` (via `Iterator::collect`): the resulting
/// string holds exactly the given characters in order.
#[verifier::external_body]
pub fn string_from_chars(v: &Vec<char>) -> (s: String)
    ensures
        s@ == v@,
{
    v.iter().collect()
}

/// A grouping separator inserted every three characters, counting from the
/// end; no separator before a leading group of fewer than three.
pub open spec fn group_commas(s: Seq<char>) -> Seq<char>
    decreases s.len(),
{
    if s.len() <= 3 {
        s
    } else {
        group_commas(s.take(s.len() - 3)) + seq![','] + s.skip(s.len() - 3)
    }
}

proof fn lemma_group_step(s: Seq<char>, p: int)
    requires
        1 <= p,
        p + 3 <= s.len(),
    ensures
        group_commas(s.take(p + 3)) == group_commas(s.take(p)) + seq![','] + s.subrange(p, p + 3),
{
    let t = s.take(p + 3);
    assert(t.take(t.len() - 3) =~= s.take(p));
    assert(t.skip(t.len() - 3) =~= s.subrange(p, p + 3));
}

/// Inserts a comma every three characters counting from the right, with no
/// comma before a leading group of fewer than three.  Purely textual: the
/// caller strips any sign first.
pub fn add_commas(whole: &str) -> (r: String)
    ensures
        r@ == group_commas(whole@),
{
    let cs = chars_of(whole);
    let grouped = group_chars(&cs);
    string_from_chars(&grouped)
}

/// Character-vector form of the digit grouping.
pub fn group_chars(cs: &Vec<char>) -> (r: Vec<char>)
    ensures
        r@ == group_commas(cs@),
{
    let n = cs.len();
    if n == 0 {
        return Vec::new();
    }
    let lead: usize = ((n - 1) % 3) + 1;
    let mut out: Vec<char> = Vec::new();
    let mut i: usize = 0;
    while i < lead
        invariant
            n == cs@.len(),
            1 <= lead <= 3,
            lead <= n,
            i <= lead,
            out@ == cs@.take(i as int),
        decreases lead - i,
    {
        out.push(cs[i]);
        proof {
            assert(cs@.take(i + 1 as int) =~= cs@.take(i as int).push(cs@[i as int]));
        }
        i = i + 1;
    }
    assert(out@ == group_commas(cs@.take(lead as int)));
    while i < n
        invariant
            n == cs@.len(),
            1 <= lead <= 3,
            lead <= i <= n,
            (n - i) % 3 == 0,
            out@ == group_commas(cs@.take(i as int)),
        decreases n - i,
    {
        assert(i + 3 <= n);
        out.push(',');
        out.push(cs[i]);
        out.push(cs[i + 1]);
        out.push(cs[i + 2]);
        proof {
            lemma_group_step(cs@, i as int);
            assert(out@ =~= group_commas(cs@.take(i as int)) + seq![','] + cs@.subrange(
                i as int,
                i + 3,
            ));
        }
        i = i + 3;
    }
    proof {
        assert(cs@.take(n as int) =~= cs@);
    }
    out
}

/// The sequence with every comma removed and all other characters kept in
/// order.
pub open spec fn strip_commas(s: Seq<char>) -> Seq<char>
    decreases s.len(),
{
    if s.len() == 0 {
        Seq::empty()
    } else if s.last() == ',' {
        strip_commas(s.drop_last())
    } else {
        strip_commas(s.drop_last()).push(s.last())
    }
}

pub proof fn lemma_strip_commas_distributes(a: Seq<char>, b: Seq<char>)
    ensures
        strip_commas(a + b) == strip_commas(a) + strip_commas(b),
    decreases b.len(),
{
    if b.len() == 0 {
        assert(a + b =~= a);
        assert(strip_commas(a) + strip_commas(b) =~= strip_commas(a));
    } else {
        lemma_strip_commas_distributes(a, b.drop_last());
        assert((a + b).drop_last() =~= a + b.drop_last());
        assert((a + b).last() == b.last());
        if b.last() == ',' {
        } else {
            assert(strip_commas(a) + strip_commas(b.drop_last()).push(b.last()) =~= (strip_commas(
                a,
            ) + strip_commas(b.drop_last())).push(b.last()));
        }
    }
}

pub proof fn lemma_strip_commas_no_comma(s: Seq<char>)
    requires
        forall|i: int| 0 <= i < s.len() ==> s[i] != ',',
    ensures
        strip_commas(s) == s,
    decreases s.len(),
{
    if s.len() > 0 {
        lemma_strip_commas_no_comma(s.drop_last());
        assert(strip_commas(s.drop_last()).push(s.last()) =~= s);
    }
}

pub proof fn lemma_strip_commas_shorter(s: Seq<char>)
    ensures
        strip_commas(s).len() <= s.len(),
    decreases s.len(),
{
    if s.len() > 0 {
        lemma_strip_commas_shorter(s.drop_last());
    }
}

/// Removes every comma from `s`, keeping the other characters in order.
pub fn remove_commas(s: &str) -> (r: String)
    ensures
        r@ == strip_commas(s@),
{
    let cs = chars_of(s);
    let n = cs.len();
    let mut out: Vec<char> = Vec::new();
    let mut i: usize = 0;
    while i < n
        invariant
            n == cs@.len(),
            i <= n,
            out@ == strip_commas(cs@.take(i as int)),
        decreases n - i,
    {
        proof {
            assert(cs@.take(i + 1 as int).drop_last() =~= cs@.take(i as int));
            assert(cs@.take(i + 1 as int).last() == cs@[i as int]);
        }
        let c = cs[i];
        if c != ',' {
            out.push(c);
        }
        i = i + 1;
    }
    proof {
        assert(cs@.take(n as int) =~= cs@);
    }
    string_from_chars(&out)
}

proof fn lemma_group_commas_len(s: Seq<char>)
    ensures
        s.len() > 0 ==> group_commas(s).len() == s.len() + (s.len() - 1) / 3,
        s.len() == 0 ==> group_commas(s).len() == 0,
    decreases s.len(),
{
    if s.len() > 3 {
        lemma_group_commas_len(s.take(s.len() - 3));
        assert(s.take(s.len() - 3).len() == s.len() - 3);
        assert((s.len() - 4) / 3 + 1 == (s.len() - 1) / 3);
    }
}

proof fn lemma_group_commas_strip(s: Seq<char>)
    requires
        forall|i: int| 0 <= i < s.len() ==> s[i] != ',',
    ensures
        strip_commas(group_commas(s)) == s,
    decreases s.len(),
{
    if s.len() <= 3 {
        lemma_strip_commas_no_comma(s);
    } else {
        let sp = s.take(s.len() - 3);
        let tail = s.skip(s.len() - 3);
        let rp = group_commas(sp);
        lemma_group_commas_strip(sp);
        lemma_strip_commas_distributes(rp + seq![','], tail);
        lemma_strip_commas_distributes(rp, seq![',']);
        lemma_strip_commas_no_comma(tail);
        assert(seq![','].drop_last() =~= Seq::<char>::empty());
        assert(strip_commas(Seq::<char>::empty()) =~= Seq::<char>::empty());
        assert(strip_commas(seq![',']) =~= Seq::<char>::empty());
        assert(strip_commas(rp) + strip_commas(seq![',']) =~= sp);
        assert(strip_commas(group_commas(s)) =~= sp + tail);
        assert(sp + tail =~= s);
    }
}

proof fn lemma_group_commas_positions(s: Seq<char>)
    requires
        forall|i: int| 0 <= i < s.len() ==> s[i] != ',',
    ensures
        forall|j: int|
            0 <= j < group_commas(s).len() ==> (group_commas(s)[j] == ',' <==> (group_commas(
                s,
            ).len() - j) % 4 == 0),
    decreases s.len(),
{
    let r = group_commas(s);
    if s.len() <= 3 {
        assert forall|j: int| 0 <= j < r.len() implies (r[j] == ',' <==> (r.len() - j) % 4
            == 0) by {
            assert(r[j] == s[j]);
            assert(1 <= r.len() - j <= 3);
        }
    } else {
        let sp = s.take(s.len() - 3);
        let tail = s.skip(s.len() - 3);
        let rp = group_commas(sp);
        lemma_group_commas_positions(sp);
        assert(r == rp + seq![','] + tail);
        assert(r.len() == rp.len() + 4);
        assert forall|j: int| 0 <= j < r.len() implies (r[j] == ',' <==> (r.len() - j) % 4
            == 0) by {
            if j < rp.len() {
                assert(r[j] == rp[j]);
            } else if j == rp.len() {
                assert(r[j] == ',');
                assert(r.len() - j == 4);
            } else {
                assert(r[j] == tail[j - rp.len() - 1]);
                assert(tail[j - rp.len() - 1] != ',');
                assert(1 <= r.len() - j <= 3);
            }
        }
    }
}

/// Grouping round-trip: for a nonempty all-digit string, removing the commas
/// that grouping inserted restores the input exactly, the grouped form is
/// longer by one comma per extra group of three, and commas stand exactly at
/// every fourth position counting from the right end.
pub proof fn lemma_grouping_round_trip(s: Seq<char>)
    requires
        forall|i: int| 0 <= i < s.len() ==> is_digit_char(s[i]),
    ensures
        strip_commas(group_commas(s)) == s,
        s.len() > 0 ==> group_commas(s).len() == s.len() + (s.len() - 1) / 3,
        forall|j: int|
            0 <= j < group_commas(s).len() ==> (group_commas(s)[j] == ',' <==> (group_commas(
                s,
            ).len() - j) % 4 == 0),
{
    assert forall|i: int| 0 <= i < s.len() implies s[i] != ',' by {
        assert(is_digit_char(s[i]));
    }
    lemma_group_commas_len(s);
    lemma_group_commas_strip(s);
    lemma_group_commas_positions(s);
}

/// The recognized whitespace characters: the Unicode White_Space set, as
/// `str::trim` removes.
pub open spec fn is_space_char(c: char) -> bool {
    ||| c == '\t'
    ||| c == '\n'
    ||| c == '\u{b}'
    ||| c == '\u{c}'
    ||| c == '\r'
    ||| c == ' '
    ||| c == '\u{85}'
    ||| c == '\u{a0}'
    ||| c == '\u{1680}'
    ||| (0x2000 <= c as int <= 0x200a)
    ||| c == '\u{2028}'
    ||| c == '\u{2029}'
    ||| c == '\u{202f}'
    ||| c == '\u{205f}'
    ||| c == '\u{3000}'
}

pub open spec fn trim_start_rec(s: Seq<char>) -> Seq<char>
    decreases s.len(),
{
    if s.len() > 0 && is_space_char(s[0]) {
        trim_start_rec(s.skip(1))
    } else {
        s
    }
}

pub open spec fn trim_end_rec(s: Seq<char>) -> Seq<char>
    decreases s.len(),
{
    if s.len() > 0 && is_space_char(s.last()) {
        trim_end_rec(s.drop_last())
    } else {
        s
    }
}

/// `s` with leading and trailing whitespace removed.
pub open spec fn spec_trim(s: Seq<char>) -> Seq<char> {
    trim_end_rec(trim_start_rec(s))
}

fn is_space(c: char) -> (r: bool)
    ensures
        r == is_space_char(c),
{
    c == '\t' || c == '\n' || c == '\u{b}' || c == '\u{c}' || c == '\r' || c == ' ' || c
        == '\u{85}' || c == '\u{a0}' || c == '\u{1680}' || (c >= '\u{2000}' && c <= '\u{200a}')
        || c == '\u{2028}' || c == '\u{2029}' || c == '\u{202f}' || c == '\u{205f}' || c
        == '\u{3000}'
}

/// The characters of `v` with leading and trailing whitespace removed.
pub fn trim_chars(v: &Vec<char>) -> (t: Vec<char>)
    ensures
        t@ == spec_trim(v@),
{
    let n = v.len();
    let mut b: usize = 0;
    proof {
        assert(v@.skip(0) =~= v@);
    }
    loop
        invariant
            b <= n,
            n == v@.len(),
            trim_start_rec(v@) == trim_start_rec(v@.skip(b as int)),
        ensures
            b <= n,
            trim_start_rec(v@) == v@.skip(b as int),
        decreases n - b,
    {
        if b < n {
            if is_space(v[b]) {
                proof {
                    assert(v@.skip(b as int).skip(1) =~= v@.skip(b + 1 as int));
                    assert(v@.skip(b as int)[0] == v@[b as int]);
                }
                b = b + 1;
            } else {
                proof {
                    assert(v@.skip(b as int)[0] == v@[b as int]);
                }
                break ;
            }
        } else {
            proof {
                assert(v@.skip(b as int).len() == 0);
            }
            break ;
        }
    }
    let ghost u = v@.skip(b as int);
    let mut e: usize = n;
    proof {
        assert(u.take(n - b as int) =~= u);
    }
    loop
        invariant
            b <= e <= n,
            n == v@.len(),
            u == v@.skip(b as int),
            trim_end_rec(u) == trim_end_rec(u.take(e - b as int)),
        ensures
            b <= e <= n,
            trim_end_rec(u) == u.take(e - b as int),
        decreases e,
    {
        if e > b {
            if is_space(v[e - 1]) {
                proof {
                    assert(u.take(e - b as int).drop_last() =~= u.take(e - 1 - b as int));
                    assert(u.take(e - b as int).last() == v@[e - 1 as int]);
                }
                e = e - 1;
            } else {
                proof {
                    assert(u.take(e - b as int).last() == v@[e - 1 as int]);
                }
                break ;
            }
        } else {
            proof {
                assert(u.take(e - b as int).len() == 0);
            }
            break ;
        }
    }
    let mut t: Vec<char> = Vec::new();
    let mut i: usize = b;
    while i < e
        invariant
            b <= i <= e <= n,
            n == v@.len(),
            t@ == v@.subrange(b as int, i as int),
        decreases e - i,
    {
        t.push(v[i]);
        proof {
            assert(v@.subrange(b as int, i + 1 as int) =~= v@.subrange(b as int, i as int).push(
                v@[i as int],
            ));
        }
        i = i + 1;
    }
    proof {
        assert(t@ =~= u.take(e - b as int));
    }
    t
}

/// `c` equals the given lowercase-normal character once ASCII upper case is
/// folded: either they are identical, or `l` is an ASCII lowercase letter and
/// `c` its uppercase form.
pub open spec fn lower_eq_char(c: char, l: char) -> bool {
    c == l || (97 <= l as int <= 122 && c as int + 32 == l as int)
}

/// `s` equals `lit` after ASCII-lowercasing `s`, where `lit` is already
/// lowercase-normal.
pub open spec fn matches_lower(s: Seq<char>, lit: Seq<char>) -> bool {
    s.len() == lit.len() && forall|i: int| 0 <= i < s.len() ==> lower_eq_char(s[i], lit[i])
}

/// The ASCII lowercase form of `c`: uppercase letters move down by one case,
/// everything else is unchanged.
fn ascii_lower(c: char) -> (r: char)
    ensures
        r as int == if 65 <= c as int <= 90 {
            c as int + 32
        } else {
            c as int
        },
{
    match c {
        'A' => 'a',
        'B' => 'b',
        'C' => 'c',
        'D' => 'd',
        'E' => 'e',
        'F' => 'f',
        'G' => 'g',
        'H' => 'h',
        'I' => 'i',
        'J' => 'j',
        'K' => 'k',
        'L' => 'l',
        'M' => 'm',
        'N' => 'n',
        'O' => 'o',
        'P' => 'p',
        'Q' => 'q',
        'R' => 'r',
        'S' => 's',
        'T' => 't',
        'U' => 'u',
        'V' => 'v',
        'W' => 'w',
        'X' => 'x',
        'Y' => 'y',
        'Z' => 'z',
        _ => c,
    }
}

/// Case-insensitive comparison of `v` against an already-lowercase literal.
pub fn chars_match_lower(v: &Vec<char>, lit: &str) -> (r: bool)
    ensures
        r == matches_lower(v@, lit@),
{
    let n = lit.unicode_len();
    if v.len() != n {
        return false;
    }
    let mut i: usize = 0;
    while i < n
        invariant
            n == lit@.len(),
            n == v@.len(),
            i <= n,
            forall|k: int| 0 <= k < i ==> lower_eq_char(v@[k], lit@[k]),
        decreases n - i,
    {
        let c = v[i];
        let l = lit.get_char(i);
        let ok = c == l || ascii_lower(c) == l;
        if !ok {
            proof {
                assert(!lower_eq_char(v@[i as int], lit@[i as int]));
            }
            return false;
        }
        proof {
            assert(lower_eq_char(v@[i as int], lit@[i as int]));
        }
        i = i + 1;
    }
    true
}

} // verus!
