//! Character-sequence utilities: decimal and hexadecimal rendering of
//! integers, character search, and path joining.
//!
//! Every executable function here has an exact specification over `Seq<char>`.

use vstd::prelude::*;
use vstd::string::*;

verus! {

/// The decimal digit character for `d`.
pub open spec fn dec_digit(d: nat) -> char {
    if d == 0 {
        '0'
    } else if d == 1 {
        '1'
    } else if d == 2 {
        '2'
    } else if d == 3 {
        '3'
    } else if d == 4 {
        '4'
    } else if d == 5 {
        '5'
    } else if d == 6 {
        '6'
    } else if d == 7 {
        '7'
    } else if d == 8 {
        '8'
    } else {
        '9'
    }
}

/// The decimal rendering of `n`, most significant digit first, no leading
/// zeroes (a single `'0'` for zero).
pub open spec fn dec_str(n: nat) -> Seq<char>
    decreases n,
{
    if n < 10 {
        seq![dec_digit(n)]
    } else {
        dec_str(n / 10).push(dec_digit(n % 10))
    }
}

/// The lower-case hexadecimal digit character for `d`.
pub open spec fn hex_digit(d: nat) -> char {
    if d < 10 {
        dec_digit(d)
    } else if d == 10 {
        'a'
    } else if d == 11 {
        'b'
    } else if d == 12 {
        'c'
    } else if d == 13 {
        'd'
    } else if d == 14 {
        'e'
    } else {
        'f'
    }
}

/// The last `digits` hexadecimal digits of `h`, zero-padded, most
/// significant first.
pub open spec fn hex_str(h: nat, digits: nat) -> Seq<char>
    decreases digits,
{
    if digits == 0 {
        Seq::empty()
    } else {
        hex_str(h / 16, (digits - 1) as nat).push(hex_digit(h % 16))
    }
}

/// The sixteen-digit hexadecimal rendering of a 64-bit hash, as used for
/// overlay cache bucket names.
pub open spec fn hex16(h: u64) -> Seq<char> {
    hex_str(h as nat, 16)
}

/// `a` and `b` joined with a single separating slash.
pub open spec fn path_join(a: Seq<char>, b: Seq<char>) -> Seq<char> {
    a + seq!['/'] + b
}

/// `parts` joined with a single `'.'` between neighbours.
pub open spec fn dot_join(parts: Seq<Seq<char>>) -> Seq<char>
    decreases parts.len(),
{
    if parts.len() == 0 {
        Seq::empty()
    } else if parts.len() == 1 {
        parts[0]
    } else {
        dot_join(parts.drop_last()) + seq!['.'] + parts.last()
    }
}

/// The index of the first occurrence of `c` in `s`, or `-1` when absent.
pub open spec fn first_index_of(s: Seq<char>, c: char) -> int
    decreases s.len(),
{
    if s.len() == 0 {
        -1
    } else if s[0] == c {
        0
    } else if first_index_of(s.skip(1), c) == -1 {
        -1
    } else {
        first_index_of(s.skip(1), c) + 1
    }
}

/// What `first_index_of` returns: the least index holding `c`, or `-1` when
/// no index does.
pub proof fn lemma_first_index_of(s: Seq<char>, c: char)
    ensures
        first_index_of(s, c) == -1 <==> (forall|i: int| 0 <= i < s.len() ==> s[i] != c),
        first_index_of(s, c) != -1 ==> {
            &&& 0 <= first_index_of(s, c) < s.len()
            &&& s[first_index_of(s, c)] == c
            &&& forall|i: int| 0 <= i < first_index_of(s, c) ==> s[i] != c
        },
    decreases s.len(),
{
    if s.len() != 0 && s[0] != c {
        let t = s.skip(1);
        lemma_first_index_of(t, c);
        assert(forall|i: int| 0 <= i < t.len() ==> t[i] == s[i + 1]);
        if first_index_of(t, c) == -1 {
            assert forall|i: int| 0 <= i < s.len() implies s[i] != c by {
                if i > 0 {
                    assert(t[i - 1] == s[i]);
                }
            }
        } else {
            let r1 = first_index_of(t, c);
            assert(s[r1 + 1] == t[r1]);
            assert forall|i: int| 0 <= i < r1 + 1 implies s[i] != c by {
                if i > 0 {
                    assert(t[i - 1] == s[i]);
                }
            }
        }
    }
}

/// The index of the last occurrence of `c` in `s`, or `-1` when absent.
pub open spec fn last_index_of(s: Seq<char>, c: char) -> int
    decreases s.len(),
{
    if s.len() == 0 {
        -1
    } else if s.last() == c {
        s.len() - 1
    } else {
        last_index_of(s.drop_last(), c)
    }
}

/// What `last_index_of` returns: the greatest index holding `c`, or `-1`
/// when no index does.
pub proof fn lemma_last_index_of(s: Seq<char>, c: char)
    ensures
        last_index_of(s, c) == -1 <==> (forall|i: int| 0 <= i < s.len() ==> s[i] != c),
        last_index_of(s, c) != -1 ==> {
            &&& 0 <= last_index_of(s, c) < s.len()
            &&& s[last_index_of(s, c)] == c
            &&& forall|i: int| last_index_of(s, c) < i < s.len() ==> s[i] != c
        },
    decreases s.len(),
{
    if s.len() != 0 && s.last() != c {
        let t = s.drop_last();
        lemma_last_index_of(t, c);
        assert(forall|i: int| 0 <= i < t.len() ==> t[i] == s[i]);
        if last_index_of(t, c) == -1 {
            assert forall|i: int| 0 <= i < s.len() implies s[i] != c by {
                if i < s.len() - 1 {
                    assert(t[i] == s[i]);
                }
            }
        } else {
            let r1 = last_index_of(t, c);
            assert(s[r1] == t[r1]);
            assert forall|i: int| r1 < i < s.len() implies s[i] != c by {
                if i < s.len() - 1 {
                    assert(t[i] == s[i]);
                }
            }
        }
    }
}

/// `first_index_of` returns `i` when `c` stands at `i` and nowhere earlier.
pub proof fn lemma_first_index_at(s: Seq<char>, c: char, i: int)
    requires
        0 <= i < s.len(),
        s[i] == c,
        forall|j: int| 0 <= j < i ==> s[j] != c,
    ensures
        first_index_of(s, c) == i,
    decreases s.len(),
{
    if i > 0 {
        let t = s.skip(1);
        assert(t[i - 1] == s[i]);
        assert forall|j: int| 0 <= j < i - 1 implies t[j] != c by {
            assert(t[j] == s[j + 1]);
        }
        lemma_first_index_at(t, c, i - 1);
    }
}

/// `first_index_of` returns `-1` when `c` occurs nowhere in `s`.
pub proof fn lemma_first_index_none(s: Seq<char>, c: char)
    requires
        forall|j: int| 0 <= j < s.len() ==> s[j] != c,
    ensures
        first_index_of(s, c) == -1,
    decreases s.len(),
{
    if s.len() > 0 {
        let t = s.skip(1);
        assert forall|j: int| 0 <= j < t.len() implies t[j] != c by {
            assert(t[j] == s[j + 1]);
        }
        lemma_first_index_none(t, c);
    }
}

/// `last_index_of` returns `i` when `c` stands at `i` and nowhere later.
pub proof fn lemma_last_index_at(s: Seq<char>, c: char, i: int)
    requires
        0 <= i < s.len(),
        s[i] == c,
        forall|j: int| i < j < s.len() ==> s[j] != c,
    ensures
        last_index_of(s, c) == i,
    decreases s.len(),
{
    if i < s.len() - 1 {
        let t = s.drop_last();
        assert(t[i] == s[i]);
        assert forall|j: int| i < j < t.len() implies t[j] != c by {
            assert(t[j] == s[j]);
        }
        lemma_last_index_at(t, c, i);
    }
}

/// `last_index_of` returns `-1` when `c` occurs nowhere in `s`.
pub proof fn lemma_last_index_none(s: Seq<char>, c: char)
    requires
        forall|j: int| 0 <= j < s.len() ==> s[j] != c,
    ensures
        last_index_of(s, c) == -1,
    decreases s.len(),
{
    if s.len() > 0 {
        let t = s.drop_last();
        assert forall|j: int| 0 <= j < t.len() implies t[j] != c by {
            assert(t[j] == s[j]);
        }
        lemma_last_index_none(t, c);
    }
}

/// A one-character string for a decimal digit.
pub fn dec_digit_str(d: u64) -> (r: String)
    requires
        d < 10,
    ensures
        r@ =~= seq![dec_digit(d as nat)],
{
    let s: &str = match d {
        0 => "0",
        1 => "1",
        2 => "2",
        3 => "3",
        4 => "4",
        5 => "5",
        6 => "6",
        7 => "7",
        8 => "8",
        _ => "9",
    };
    proof {
        reveal_strlit("0");
        reveal_strlit("1");
        reveal_strlit("2");
        reveal_strlit("3");
        reveal_strlit("4");
        reveal_strlit("5");
        reveal_strlit("6");
        reveal_strlit("7");
        reveal_strlit("8");
        reveal_strlit("9");
    }
    s.to_owned()
}

/// A one-character string for a lower-case hexadecimal digit.
pub fn hex_digit_str(d: u64) -> (r: String)
    requires
        d < 16,
    ensures
        r@ =~= seq![hex_digit(d as nat)],
{
    if d < 10 {
        dec_digit_str(d)
    } else {
        let s: &str = match d {
            10 => "a",
            11 => "b",
            12 => "c",
            13 => "d",
            14 => "e",
            _ => "f",
        };
        proof {
            reveal_strlit("a");
            reveal_strlit("b");
            reveal_strlit("c");
            reveal_strlit("d");
            reveal_strlit("e");
            reveal_strlit("f");
        }
        s.to_owned()
    }
}

/// The decimal rendering of `n`.
pub fn u64_to_dec(n: u64) -> (r: String)
    ensures
        r@ == dec_str(n as nat),
    decreases n,
{
    if n < 10 {
        dec_digit_str(n)
    } else {
        proof {
            assert(n / 10 < n) by (nonlinear_arith)
                requires
                    n >= 10,
            ;
        }
        let mut s = u64_to_dec(n / 10);
        let d = dec_digit_str(n % 10);
        s.append(d.as_str());
        proof {
            assert(s@ =~= dec_str(n as nat));
        }
        s
    }
}

fn hex_str_exec(h: u64, digits: usize) -> (r: String)
    ensures
        r@ == hex_str(h as nat, digits as nat),
    decreases digits,
{
    if digits == 0 {
        String::new()
    } else {
        let mut s = hex_str_exec(h / 16, digits - 1);
        let d = hex_digit_str(h % 16);
        s.append(d.as_str());
        proof {
            assert(s@ =~= hex_str(h as nat, digits as nat));
        }
        s
    }
}

/// The sixteen-digit zero-padded hexadecimal rendering of `h`.
pub fn u64_to_hex16(h: u64) -> (r: String)
    ensures
        r@ == hex16(h),
{
    hex_str_exec(h, 16)
}

/// `a` and `b` joined with a slash.
pub fn join_path_exec(a: &str, b: &str) -> (r: String)
    ensures
        r@ == path_join(a@, b@),
{
    let mut s = a.to_owned();
    s.append("/");
    s.append(b);
    proof {
        reveal_strlit("/");
        assert(s@ =~= path_join(a@, b@));
    }
    s
}

/// The index of the first `c` in `s`, if any.
pub fn find_char(s: &str, c: char) -> (r: Option<usize>)
    ensures
        match r {
            Some(i) => i == first_index_of(s@, c),
            None => first_index_of(s@, c) == -1,
        },
{
    let n = s.unicode_len();
    let mut i: usize = 0;
    while i < n
        invariant
            n == s@.len(),
            0 <= i <= n,
            forall|j: int| 0 <= j < i ==> s@[j] != c,
        decreases n - i,
    {
        if s.get_char(i) == c {
            proof {
                lemma_first_index_at(s@, c, i as int);
            }
            return Some(i);
        }
        i = i + 1;
    }
    proof {
        lemma_first_index_none(s@, c);
    }
    None
}

/// The index of the last `c` in `s`, if any.
pub fn rfind_char(s: &str, c: char) -> (r: Option<usize>)
    ensures
        match r {
            Some(i) => i == last_index_of(s@, c),
            None => last_index_of(s@, c) == -1,
        },
{
    let n = s.unicode_len();
    let mut i: usize = n;
    while i > 0
        invariant
            n == s@.len(),
            0 <= i <= n,
            forall|j: int| i <= j < n ==> s@[j] != c,
        decreases i,
    {
        i = i - 1;
        if s.get_char(i) == c {
            proof {
                lemma_last_index_at(s@, c, i as int);
            }
            return Some(i);
        }
    }
    proof {
        lemma_last_index_none(s@, c);
    }
    None
}

/// The characters of `s` from `from` (inclusive) to `to` (exclusive), as an
/// owned string.
pub fn substr(s: &str, from: usize, to: usize) -> (r: String)
    requires
        from <= to <= s@.len(),
    ensures
        r@ == s@.subrange(from as int, to as int),
{
    s.substring_char(from, to).to_owned()
}


/// Two characters with one code point are one character.
proof fn lemma_char_code_injective(c: char, d: char)
    requires
        c as u32 == d as u32,
    ensures
        c == d,
{
}

/// Lexicographic order on character sequences, by code point.
pub open spec fn seq_str_le(a: Seq<char>, b: Seq<char>) -> bool
    decreases a.len(),
{
    if a.len() == 0 {
        true
    } else if b.len() == 0 {
        false
    } else if a[0] != b[0] {
        (a[0] as u32) < (b[0] as u32)
    } else {
        seq_str_le(a.skip(1), b.skip(1))
    }
}

/// The order is total.
pub proof fn lemma_seq_str_le_total(a: Seq<char>, b: Seq<char>)
    ensures
        seq_str_le(a, b) || seq_str_le(b, a),
    decreases a.len(),
{
    if a.len() != 0 && b.len() != 0 {
        if a[0] == b[0] {
            lemma_seq_str_le_total(a.skip(1), b.skip(1));
        } else if (a[0] as u32) == (b[0] as u32) {
            lemma_char_code_injective(a[0], b[0]);
        }
    }
}

/// The order is antisymmetric.
pub proof fn lemma_seq_str_le_antisym(a: Seq<char>, b: Seq<char>)
    requires
        seq_str_le(a, b),
        seq_str_le(b, a),
    ensures
        a == b,
    decreases a.len(),
{
    if a.len() == 0 {
        assert(b.len() == 0);
        assert(a =~= b);
    } else {
        assert(b.len() != 0);
        assert(a[0] == b[0]);
        lemma_seq_str_le_antisym(a.skip(1), b.skip(1));
        assert forall|i: int| 0 <= i < a.len() implies a[i] == b[i] by {
            if i > 0 {
                assert(a.skip(1)[i - 1] == a[i]);
                assert(b.skip(1)[i - 1] == b[i]);
            }
        }
        assert(a.len() == b.len());
        assert(a =~= b);
    }
}

/// The order is transitive.
pub proof fn lemma_seq_str_le_trans(a: Seq<char>, b: Seq<char>, c: Seq<char>)
    requires
        seq_str_le(a, b),
        seq_str_le(b, c),
    ensures
        seq_str_le(a, c),
    decreases a.len(),
{
    if a.len() != 0 && b.len() != 0 && c.len() != 0 {
        if a[0] == b[0] && b[0] == c[0] {
            lemma_seq_str_le_trans(a.skip(1), b.skip(1), c.skip(1));
        }
    }
}

fn str_le_from(a: &str, b: &str, i: usize) -> (r: bool)
    requires
        i <= a@.len(),
        i <= b@.len(),
    ensures
        r == seq_str_le(a@.skip(i as int), b@.skip(i as int)),
    decreases a@.len() - i,
{
    let la = a.unicode_len();
    let lb = b.unicode_len();
    if i == la {
        true
    } else if i == lb {
        false
    } else {
        let ca = a.get_char(i);
        let cb = b.get_char(i);
        proof {
            assert(a@.skip(i as int)[0] == a@[i as int]);
            assert(b@.skip(i as int)[0] == b@[i as int]);
            assert(a@.skip(i as int).skip(1) =~= a@.skip(i + 1));
            assert(b@.skip(i as int).skip(1) =~= b@.skip(i + 1));
        }
        if ca != cb {
            (ca as u32) < (cb as u32)
        } else {
            str_le_from(a, b, i + 1)
        }
    }
}

/// Whether `a` precedes `b` (or equals it) in lexicographic order.
pub fn str_le(a: &String, b: &String) -> (r: bool)
    ensures
        r == seq_str_le(a@, b@),
{
    proof {
        assert(a@.skip(0) =~= a@);
        assert(b@.skip(0) =~= b@);
    }
    str_le_from(a.as_str(), b.as_str(), 0)
}

} // verus!
