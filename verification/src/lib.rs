//! Conversion between integers and roman numerals.
//!
//! `to` encodes an integer in `[1, MAX]` as its canonical roman numeral,
//! built greedily from the thirteen additive and subtractive pairs
//! (M, CM, D, CD, C, XC, L, XL, X, IX, V, IV, I). `from` decodes a string,
//! accepting exactly the canonical numerals: it sums symbol values right to
//! left (subtracting a symbol that stands before a larger one), then checks
//! that re-encoding the sum reproduces the input.

use vstd::prelude::*;

verus! {

/// The largest number representable as a roman numeral.
pub const MAX: i32 = 3999;

/// Value of a single roman symbol; 0 for any other character.
pub open spec fn char_value(c: char) -> int {
    if c == 'I' {
        1
    } else if c == 'V' {
        5
    } else if c == 'X' {
        10
    } else if c == 'L' {
        50
    } else if c == 'C' {
        100
    } else if c == 'D' {
        500
    } else if c == 'M' {
        1000
    } else {
        0
    }
}

pub open spec fn is_roman_char(c: char) -> bool {
    char_value(c) > 0
}

pub open spec fn all_roman(s: Seq<char>) -> bool {
    forall|i: int| 0 <= i < s.len() ==> is_roman_char(#[trigger] s[i])
}

/// The canonical roman numeral of `n`: the greedy walk down the thirteen
/// pairs, taking each pair as often as it fits. Empty for `n <= 0`.
pub open spec fn roman_of(n: int) -> Seq<char>
    decreases n,
{
    if n >= 1000 {
        seq!['M'] + roman_of(n - 1000)
    } else if n >= 900 {
        seq!['C', 'M'] + roman_of(n - 900)
    } else if n >= 500 {
        seq!['D'] + roman_of(n - 500)
    } else if n >= 400 {
        seq!['C', 'D'] + roman_of(n - 400)
    } else if n >= 100 {
        seq!['C'] + roman_of(n - 100)
    } else if n >= 90 {
        seq!['X', 'C'] + roman_of(n - 90)
    } else if n >= 50 {
        seq!['L'] + roman_of(n - 50)
    } else if n >= 40 {
        seq!['X', 'L'] + roman_of(n - 40)
    } else if n >= 10 {
        seq!['X'] + roman_of(n - 10)
    } else if n >= 9 {
        seq!['I', 'X'] + roman_of(n - 9)
    } else if n >= 5 {
        seq!['V'] + roman_of(n - 5)
    } else if n >= 4 {
        seq!['I', 'V'] + roman_of(n - 4)
    } else if n >= 1 {
        seq!['I'] + roman_of(n - 1)
    } else {
        Seq::empty()
    }
}

/// One step of the right-to-left additive/subtractive scan: a symbol smaller
/// than the largest one already seen counts negative, any other counts
/// positive and becomes the new largest.
pub open spec fn lax_step(c: char, st: (int, int)) -> (int, int) {
    let v = char_value(c);
    if v < st.1 {
        (st.0 - v, st.1)
    } else {
        (st.0 + v, v)
    }
}

/// Scan `s` from its last character to its first, starting from `(0, 0)`.
/// The first component is the running total, the second the largest symbol
/// value seen so far.
pub open spec fn lax_scan(s: Seq<char>) -> (int, int)
    decreases s.len(),
{
    if s.len() == 0 {
        (0, 0)
    } else {
        lax_step(s[0], lax_scan(s.drop_first()))
    }
}

/// The integer a string of roman symbols denotes under the lax
/// additive/subtractive reading, canonical or not.
pub open spec fn lax_value(s: Seq<char>) -> int {
    lax_scan(s).0
}

/// The largest symbol value occurring in `roman_of(n)`: the value of the
/// higher symbol of the leading pair the greedy encoder picks for `n`.
pub open spec fn lead_max(n: int) -> int {
    if n >= 900 {
        1000
    } else if n >= 400 {
        500
    } else if n >= 90 {
        100
    } else if n >= 40 {
        50
    } else if n >= 9 {
        10
    } else if n >= 4 {
        5
    } else if n >= 1 {
        1
    } else {
        0
    }
}

/// A canonical numeral never has more characters than the value it denotes:
/// every pair appends at most as many symbols as it subtracts.
pub proof fn lemma_roman_len(n: int)
    requires
        n >= 0,
    ensures
        roman_of(n).len() <= n,
    decreases n,
{
    if n >= 1000 {
        lemma_roman_len(n - 1000);
    } else if n >= 900 {
        lemma_roman_len(n - 900);
    } else if n >= 500 {
        lemma_roman_len(n - 500);
    } else if n >= 400 {
        lemma_roman_len(n - 400);
    } else if n >= 100 {
        lemma_roman_len(n - 100);
    } else if n >= 90 {
        lemma_roman_len(n - 90);
    } else if n >= 50 {
        lemma_roman_len(n - 50);
    } else if n >= 40 {
        lemma_roman_len(n - 40);
    } else if n >= 10 {
        lemma_roman_len(n - 10);
    } else if n >= 9 {
        lemma_roman_len(n - 9);
    } else if n >= 5 {
        lemma_roman_len(n - 5);
    } else if n >= 4 {
        lemma_roman_len(n - 4);
    } else if n >= 1 {
        lemma_roman_len(n - 1);
    }
}

proof fn lemma_all_roman_concat(a: Seq<char>, b: Seq<char>)
    requires
        all_roman(a),
        all_roman(b),
    ensures
        all_roman(a + b),
{
    assert forall|i: int| 0 <= i < (a + b).len() implies is_roman_char(#[trigger] (a + b)[i]) by {
        if i < a.len() {
            assert((a + b)[i] == a[i]);
        } else {
            assert((a + b)[i] == b[i - a.len()]);
        }
    }
}

/// A canonical numeral is made of roman symbols only.
pub proof fn lemma_roman_of_all_roman(n: int)
    ensures
        all_roman(roman_of(n)),
    decreases n,
{
    if n >= 1000 {
        lemma_roman_of_all_roman(n - 1000);
        lemma_all_roman_concat(seq!['M'], roman_of(n - 1000));
    } else if n >= 900 {
        lemma_roman_of_all_roman(n - 900);
        lemma_all_roman_concat(seq!['C', 'M'], roman_of(n - 900));
    } else if n >= 500 {
        lemma_roman_of_all_roman(n - 500);
        lemma_all_roman_concat(seq!['D'], roman_of(n - 500));
    } else if n >= 400 {
        lemma_roman_of_all_roman(n - 400);
        lemma_all_roman_concat(seq!['C', 'D'], roman_of(n - 400));
    } else if n >= 100 {
        lemma_roman_of_all_roman(n - 100);
        lemma_all_roman_concat(seq!['C'], roman_of(n - 100));
    } else if n >= 90 {
        lemma_roman_of_all_roman(n - 90);
        lemma_all_roman_concat(seq!['X', 'C'], roman_of(n - 90));
    } else if n >= 50 {
        lemma_roman_of_all_roman(n - 50);
        lemma_all_roman_concat(seq!['L'], roman_of(n - 50));
    } else if n >= 40 {
        lemma_roman_of_all_roman(n - 40);
        lemma_all_roman_concat(seq!['X', 'L'], roman_of(n - 40));
    } else if n >= 10 {
        lemma_roman_of_all_roman(n - 10);
        lemma_all_roman_concat(seq!['X'], roman_of(n - 10));
    } else if n >= 9 {
        lemma_roman_of_all_roman(n - 9);
        lemma_all_roman_concat(seq!['I', 'X'], roman_of(n - 9));
    } else if n >= 5 {
        lemma_roman_of_all_roman(n - 5);
        lemma_all_roman_concat(seq!['V'], roman_of(n - 5));
    } else if n >= 4 {
        lemma_roman_of_all_roman(n - 4);
        lemma_all_roman_concat(seq!['I', 'V'], roman_of(n - 4));
    } else if n >= 1 {
        lemma_roman_of_all_roman(n - 1);
        lemma_all_roman_concat(seq!['I'], roman_of(n - 1));
    }
}

/// Scanning a one-symbol prefix in front of `rest`.
proof fn lemma_lax_scan_cons1(c: char, rest: Seq<char>)
    ensures
        lax_scan(seq![c] + rest) == lax_step(c, lax_scan(rest)),
{
    let s = seq![c] + rest;
    assert(s[0] == c);
    assert(s.drop_first() =~= rest);
}

/// Scanning a two-symbol prefix in front of `rest`.
proof fn lemma_lax_scan_cons2(c0: char, c1: char, rest: Seq<char>)
    ensures
        lax_scan(seq![c0, c1] + rest) == lax_step(c0, lax_step(c1, lax_scan(rest))),
{
    let s = seq![c0, c1] + rest;
    assert(s[0] == c0);
    assert(s.drop_first() =~= seq![c1] + rest);
    lemma_lax_scan_cons1(c1, rest);
}

/// The lax right-to-left scan of a canonical numeral recovers the encoded
/// integer, and the largest symbol it meets is `lead_max(n)`: the decoder's
/// arithmetic pass inverts the encoder.
pub proof fn lemma_lax_scan_roman(n: int)
    requires
        n >= 0,
    ensures
        lax_scan(roman_of(n)) == (n, lead_max(n)),
    decreases n,
{
    if n >= 1000 {
        lemma_lax_scan_roman(n - 1000);
        lemma_lax_scan_cons1('M', roman_of(n - 1000));
    } else if n >= 900 {
        lemma_lax_scan_roman(n - 900);
        lemma_lax_scan_cons2('C', 'M', roman_of(n - 900));
    } else if n >= 500 {
        lemma_lax_scan_roman(n - 500);
        lemma_lax_scan_cons1('D', roman_of(n - 500));
    } else if n >= 400 {
        lemma_lax_scan_roman(n - 400);
        lemma_lax_scan_cons2('C', 'D', roman_of(n - 400));
    } else if n >= 100 {
        lemma_lax_scan_roman(n - 100);
        lemma_lax_scan_cons1('C', roman_of(n - 100));
    } else if n >= 90 {
        lemma_lax_scan_roman(n - 90);
        lemma_lax_scan_cons2('X', 'C', roman_of(n - 90));
    } else if n >= 50 {
        lemma_lax_scan_roman(n - 50);
        lemma_lax_scan_cons1('L', roman_of(n - 50));
    } else if n >= 40 {
        lemma_lax_scan_roman(n - 40);
        lemma_lax_scan_cons2('X', 'L', roman_of(n - 40));
    } else if n >= 10 {
        lemma_lax_scan_roman(n - 10);
        lemma_lax_scan_cons1('X', roman_of(n - 10));
    } else if n >= 9 {
        lemma_lax_scan_roman(n - 9);
        lemma_lax_scan_cons2('I', 'X', roman_of(n - 9));
    } else if n >= 5 {
        lemma_lax_scan_roman(n - 5);
        lemma_lax_scan_cons1('V', roman_of(n - 5));
    } else if n >= 4 {
        lemma_lax_scan_roman(n - 4);
        lemma_lax_scan_cons2('I', 'V', roman_of(n - 4));
    } else if n >= 1 {
        lemma_lax_scan_roman(n - 1);
        lemma_lax_scan_cons1('I', roman_of(n - 1));
    }
}

/// Round trip: a canonical numeral determines its integer, so distinct
/// integers in `[1, MAX]` have distinct numerals. Together with the
/// contracts of `to` and `from`, decoding the encoding of any `n` in
/// `[1, MAX]` yields exactly `n` back.
pub proof fn lemma_round_trip(n: int, m: int)
    requires
        1 <= n <= MAX,
        1 <= m <= MAX,
        roman_of(n) == roman_of(m),
    ensures
        n == m,
{
    lemma_lax_scan_roman(n);
    lemma_lax_scan_roman(m);
}

proof fn lemma_concat_assoc(a: Seq<char>, b: Seq<char>, c: Seq<char>)
    ensures
        (a + b) + c == a + (b + c),
{
    assert((a + b) + c =~= a + (b + c));
}

/// Converts an integer into a roman numeral.
///
/// Returns the canonical numeral for integers between 1 and `MAX` inclusive,
/// and `None` otherwise.
#[verifier::loop_isolation(false)]
pub fn to(n: i32) -> (r: Option<String>)
    ensures
        match r {
            Some(s) => 1 <= n <= MAX && s@ == roman_of(n as int),
            None => !(1 <= n <= MAX),
        },
{
    if n <= 0 || n > MAX {
        return None;
    }
    let mut out = String::new();
    let mut m = n;
    proof {
        assert(out@ + roman_of(m as int) =~= roman_of(n as int));
    }
    while m >= 1000
        invariant
            0 <= m,
            out@ + roman_of(m as int) == roman_of(n as int),
        decreases m,
    {
        proof {
            reveal_strlit("M");
            assert("M"@ =~= seq!['M']);
            lemma_concat_assoc(out@, "M"@, roman_of(m as int - 1000));
        }
        out.append("M");
        m = m - 1000;
    }
    if m >= 900 {
        proof {
            reveal_strlit("CM");
            assert("CM"@ =~= seq!['C', 'M']);
            lemma_concat_assoc(out@, "CM"@, roman_of(m as int - 900));
        }
        out.append("CM");
        m = m - 900;
    }
    if m >= 500 {
        proof {
            reveal_strlit("D");
            assert("D"@ =~= seq!['D']);
            lemma_concat_assoc(out@, "D"@, roman_of(m as int - 500));
        }
        out.append("D");
        m = m - 500;
    }
    if m >= 400 {
        proof {
            reveal_strlit("CD");
            assert("CD"@ =~= seq!['C', 'D']);
            lemma_concat_assoc(out@, "CD"@, roman_of(m as int - 400));
        }
        out.append("CD");
        m = m - 400;
    }
    while m >= 100
        invariant
            0 <= m < 400,
            out@ + roman_of(m as int) == roman_of(n as int),
        decreases m,
    {
        proof {
            reveal_strlit("C");
            assert("C"@ =~= seq!['C']);
            lemma_concat_assoc(out@, "C"@, roman_of(m as int - 100));
        }
        out.append("C");
        m = m - 100;
    }
    if m >= 90 {
        proof {
            reveal_strlit("XC");
            assert("XC"@ =~= seq!['X', 'C']);
            lemma_concat_assoc(out@, "XC"@, roman_of(m as int - 90));
        }
        out.append("XC");
        m = m - 90;
    }
    if m >= 50 {
        proof {
            reveal_strlit("L");
            assert("L"@ =~= seq!['L']);
            lemma_concat_assoc(out@, "L"@, roman_of(m as int - 50));
        }
        out.append("L");
        m = m - 50;
    }
    if m >= 40 {
        proof {
            reveal_strlit("XL");
            assert("XL"@ =~= seq!['X', 'L']);
            lemma_concat_assoc(out@, "XL"@, roman_of(m as int - 40));
        }
        out.append("XL");
        m = m - 40;
    }
    while m >= 10
        invariant
            0 <= m < 40,
            out@ + roman_of(m as int) == roman_of(n as int),
        decreases m,
    {
        proof {
            reveal_strlit("X");
            assert("X"@ =~= seq!['X']);
            lemma_concat_assoc(out@, "X"@, roman_of(m as int - 10));
        }
        out.append("X");
        m = m - 10;
    }
    if m >= 9 {
        proof {
            reveal_strlit("IX");
            assert("IX"@ =~= seq!['I', 'X']);
            lemma_concat_assoc(out@, "IX"@, roman_of(m as int - 9));
        }
        out.append("IX");
        m = m - 9;
    }
    if m >= 5 {
        proof {
            reveal_strlit("V");
            assert("V"@ =~= seq!['V']);
            lemma_concat_assoc(out@, "V"@, roman_of(m as int - 5));
        }
        out.append("V");
        m = m - 5;
    }
    if m >= 4 {
        proof {
            reveal_strlit("IV");
            assert("IV"@ =~= seq!['I', 'V']);
            lemma_concat_assoc(out@, "IV"@, roman_of(m as int - 4));
        }
        out.append("IV");
        m = m - 4;
    }
    while m >= 1
        invariant
            0 <= m < 4,
            out@ + roman_of(m as int) == roman_of(n as int),
        decreases m,
    {
        proof {
            reveal_strlit("I");
            assert("I"@ =~= seq!['I']);
            lemma_concat_assoc(out@, "I"@, roman_of(m as int - 1));
        }
        out.append("I");
        m = m - 1;
    }
    // Every pair value has been taken as often as it fits, so nothing remains.
    assert(m == 0);
    assert(out@ + roman_of(0) =~= out@);
    Some(out)
}

/// Value of a single roman symbol; 0 for any other character.
fn char_val(c: char) -> (v: i32)
    ensures
        v as int == char_value(c),
{
    match c {
        'I' => 1,
        'V' => 5,
        'X' => 10,
        'L' => 50,
        'C' => 100,
        'D' => 500,
        'M' => 1000,
        _ => 0,
    }
}

/// The lax additive/subtractive reading of `txt`: symbol values are summed
/// right to left, a symbol standing before a larger one counting negative.
/// `None` exactly when some character is not a roman symbol. The length bound
/// keeps the running total well inside `i32`.
fn from_lax(txt: &str) -> (r: Option<i32>)
    requires
        txt@.len() <= MAX,
    ensures
        match r {
            Some(v) => all_roman(txt@) && v as int == lax_value(txt@),
            None => !all_roman(txt@),
        },
{
    let len = txt.unicode_len();
    let mut n: i32 = 0;
    let mut mx: i32 = 0;
    let mut i: usize = len;
    proof {
        assert(txt@.subrange(len as int, len as int) =~= Seq::<char>::empty());
    }
    while i > 0
        invariant
            i <= len,
            len == txt@.len(),
            len <= MAX,
            all_roman(txt@.subrange(i as int, len as int)),
            (n as int, mx as int) == lax_scan(txt@.subrange(i as int, len as int)),
            -1000 * (len - i) as int <= n as int <= 1000 * (len - i) as int,
            0 <= mx <= 1000,
        decreases i,
    {
        i = i - 1;
        let c = txt.get_char(i);
        let v = char_val(c);
        proof {
            let t = txt@.subrange(i as int, len as int);
            assert(t[0] == txt@[i as int]);
            assert(t.drop_first() =~= txt@.subrange(i as int + 1, len as int));
        }
        if v == 0 {
            proof {
                assert(!is_roman_char(txt@[i as int]));
            }
            return None;
        }
        if v < mx {
            n = n - v;
        } else {
            n = n + v;
            mx = v;
        }
        proof {
            let t = txt@.subrange(i as int, len as int);
            assert forall|j: int| 0 <= j < t.len() implies is_roman_char(#[trigger] t[j]) by {
                if j > 0 {
                    assert(t[j] == txt@.subrange(i as int + 1, len as int)[j - 1]);
                }
            }
        }
    }
    proof {
        assert(txt@.subrange(0, len as int) =~= txt@);
    }
    Some(n)
}

/// Character-for-character equality of two strings.
fn eq_str(a: &str, b: &str) -> (r: bool)
    ensures
        r == (a@ == b@),
{
    let alen = a.unicode_len();
    let blen = b.unicode_len();
    if alen != blen {
        return false;
    }
    let mut i: usize = 0;
    while i < alen
        invariant
            i <= alen,
            alen == a@.len(),
            a@.len() == b@.len(),
            forall|j: int| 0 <= j < i ==> a@[j] == b@[j],
        decreases alen - i,
    {
        if a.get_char(i) != b.get_char(i) {
            return false;
        }
        i = i + 1;
    }
    proof {
        assert(a@ =~= b@);
    }
    true
}

/// Converts a roman numeral to an integer.
///
/// Accepts exactly the canonical numerals of the integers between 1 and
/// `MAX` inclusive, and returns `None` on every other string: one with a
/// character outside the uppercase symbol set, or one that denotes a value
/// whose canonical encoding differs from the input (such as "IIII" or "VV").
pub fn from(txt: &str) -> (r: Option<i32>)
    ensures
        match r {
            Some(n) => 1 <= n <= MAX && txt@ == roman_of(n as int),
            None => forall|k: int| 1 <= k <= MAX ==> txt@ != roman_of(k),
        },
{
    // A canonical numeral is never longer than the value it denotes.
    if txt.unicode_len() > MAX as usize {
        proof {
            assert forall|k: int| 1 <= k <= MAX implies txt@ != roman_of(k) by {
                lemma_roman_len(k);
            }
        }
        return None;
    }
    let n = match from_lax(txt) {
        Some(n) => n,
        None => {
            proof {
                assert forall|k: int| 1 <= k <= MAX implies txt@ != roman_of(k) by {
                    if txt@ == roman_of(k) {
                        lemma_roman_of_all_roman(k);
                    }
                }
            }
            return None;
        },
    };
    match to(n) {
        Some(x) => {
            if eq_str(x.as_str(), txt) {
                Some(n)
            } else {
                proof {
                    assert forall|k: int| 1 <= k <= MAX implies txt@ != roman_of(k) by {
                        if txt@ == roman_of(k) {
                            lemma_lax_scan_roman(k);
                        }
                    }
                }
                None
            }
        },
        None => {
            proof {
                assert forall|k: int| 1 <= k <= MAX implies txt@ != roman_of(k) by {
                    if txt@ == roman_of(k) {
                        lemma_lax_scan_roman(k);
                    }
                }
            }
            None
        },
    }
}

} // verus!
