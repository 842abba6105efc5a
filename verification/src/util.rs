//! Small verified helpers shared across the engine: hexadecimal and decimal
//! digit rendering, byte comparison, and character search in strings.

use vstd::prelude::*;
use vstd::string::*;

verus! {

/// The hexadecimal digit character for a value in `0..16`.
pub open spec fn hex_digit(d: int) -> char {
    if d == 0 {
        '0'
    } else if d == 1 {
        '1'
    } else if d == 2 {
        '2'
    } else if d == 3 {
        '3'
    } else if d == 4 {
        '4'
    } else if d == 5 {
        '5'
    } else if d == 6 {
        '6'
    } else if d == 7 {
        '7'
    } else if d == 8 {
        '8'
    } else if d == 9 {
        '9'
    } else if d == 10 {
        'a'
    } else if d == 11 {
        'b'
    } else if d == 12 {
        'c'
    } else if d == 13 {
        'd'
    } else if d == 14 {
        'e'
    } else {
        'f'
    }
}

/// One-character string for a digit value in `0..16`.
pub fn hex_digit_str(d: u8) -> (r: &'static str)
    requires
        d < 16,
    ensures
        r@.len() == 1,
        r@[0] == hex_digit(d as int),
{
    proof {
        reveal_strlit("0");
        reveal_strlit("1");
        reveal_strlit("2");
        reveal_strlit("3");
        reveal_strlit("4");
        reveal_strlit("5");
        reveal_strlit("6");
        reveal_strlit("7");
        reveal_strlit("8");
        reveal_strlit("9");
        reveal_strlit("a");
        reveal_strlit("b");
        reveal_strlit("c");
        reveal_strlit("d");
        reveal_strlit("e");
        reveal_strlit("f");
    }
    match d {
        0 => "0",
        1 => "1",
        2 => "2",
        3 => "3",
        4 => "4",
        5 => "5",
        6 => "6",
        7 => "7",
        8 => "8",
        9 => "9",
        10 => "a",
        11 => "b",
        12 => "c",
        13 => "d",
        14 => "e",
        _ => "f",
    }
}

/// The 16-character lower-case hexadecimal rendering of a 64-bit value,
/// most significant nibble first.
pub open spec fn u64_hex16(n: u64) -> Seq<char> {
    Seq::new(16, |i: int| hex_digit(((n >> (((15 - i) * 4) as u64)) & 0xf) as int))
}

/// Renders a 64-bit value as 16 lower-case hexadecimal characters.
pub fn u64_to_hex16(n: u64) -> (r: String)
    ensures
        r@ == u64_hex16(n),
{
    let mut r = String::new();
    proof {
        assert(u64_hex16(n).take(0) =~= Seq::<char>::empty());
    }
    let mut i: u64 = 0;
    while i < 16
        invariant
            i <= 16,
            r@ == u64_hex16(n).take(i as int),
        decreases 16 - i,
    {
        let shift: u64 = (15 - i) * 4;
        let masked: u64 = (n >> shift) & 0xf;
        proof {
            assert((n >> shift) & 0xf < 16) by (bit_vector);
        }
        let d: u8 = masked as u8;
        r.append(hex_digit_str(d));
        proof {
            assert(shift == ((15 - (i as int)) * 4) as u64);
            assert(u64_hex16(n)[i as int] == hex_digit(d as int));
            assert(r@ =~= u64_hex16(n).take(i as int + 1));
        }
        i = i + 1;
    }
    proof {
        assert(r@ =~= u64_hex16(n));
    }
    r
}

/// The hexadecimal rendering of a byte sequence: two characters per byte.
pub open spec fn bytes_hex(b: Seq<u8>) -> Seq<char> {
    Seq::new(
        2 * b.len(),
        |i: int|
            if i % 2 == 0 {
                hex_digit((b[i / 2] >> 4u8) as int)
            } else {
                hex_digit((b[i / 2] & 0xf) as int)
            },
    )
}

/// Renders a byte sequence as lower-case hexadecimal, two digits per byte.
pub fn bytes_to_hex(b: &Vec<u8>) -> (r: String)
    ensures
        r@ == bytes_hex(b@),
{
    let mut r = String::new();
    proof {
        assert(bytes_hex(b@).take(0) =~= Seq::<char>::empty());
    }
    let mut i: usize = 0;
    while i < b.len()
        invariant
            i <= b.len(),
            r@ == bytes_hex(b@).take(2 * i as int),
        decreases b.len() - i,
    {
        let x: u8 = b[i];
        let hi: u8 = x >> 4;
        let lo: u8 = x & 0xf;
        proof {
            assert(x >> 4u8 < 16 && (x & 0xfu8) < 16) by (bit_vector);
            assert(bytes_hex(b@)[2 * i as int] == hex_digit(hi as int));
            assert(bytes_hex(b@)[2 * i as int + 1] == hex_digit(lo as int));
        }
        r.append(hex_digit_str(hi));
        r.append(hex_digit_str(lo));
        proof {
            assert(r@ =~= bytes_hex(b@).take(2 * (i + 1) as int));
        }
        i = i + 1;
    }
    proof {
        assert(r@ =~= bytes_hex(b@));
    }
    r
}

/// True when two byte slices hold the same bytes.
pub fn bytes_eq(a: &[u8], b: &[u8]) -> (r: bool)
    ensures
        r == (a@ == b@),
{
    if a.len() != b.len() {
        proof {
            assert(a@ != b@);
        }
        return false;
    }
    let mut i: usize = 0;
    while i < a.len()
        invariant
            i <= a.len(),
            a@.len() == b@.len(),
            forall|j: int| 0 <= j < i ==> a@[j] == b@[j],
        decreases a.len() - i,
    {
        if a[i] != b[i] {
            proof {
                assert(a@[i as int] != b@[i as int]);
            }
            return false;
        }
        i = i + 1;
    }
    proof {
        assert(a@ =~= b@);
    }
    true
}

/// True when two strings hold the same characters.
pub fn str_eq(a: &str, b: &str) -> (r: bool)
    ensures
        r == (a@ == b@),
{
    let na: usize = a.unicode_len();
    let nb: usize = b.unicode_len();
    if na != nb {
        proof {
            assert(a@ != b@);
        }
        return false;
    }
    let mut i: usize = 0;
    while i < na
        invariant
            na == a@.len(),
            na == b@.len(),
            i <= na,
            forall|j: int| 0 <= j < i ==> a@[j] == b@[j],
        decreases na - i,
    {
        if a.get_char(i) != b.get_char(i) {
            proof {
                assert(a@[i as int] != b@[i as int]);
            }
            return false;
        }
        i = i + 1;
    }
    proof {
        assert(a@ =~= b@);
    }
    true
}

/// Finds the first occurrence of `c` in `s`.
pub fn find_char(s: &str, c: char) -> (r: Option<usize>)
    ensures
        match r {
            Some(i) => 0 <= i < s@.len() && s@[i as int] == c && forall|j: int|
                0 <= j < i ==> s@[j] != c,
            None => forall|j: int| 0 <= j < s@.len() ==> s@[j] != c,
        },
{
    let n: usize = s.unicode_len();
    let mut i: usize = 0;
    while i < n
        invariant
            n == s@.len(),
            i <= n,
            forall|j: int| 0 <= j < i ==> s@[j] != c,
        decreases n - i,
    {
        if s.get_char(i) == c {
            return Some(i);
        }
        i = i + 1;
    }
    None
}

/// First-match lookup of a key in an association list, seen at the view
/// level of the stored values.
pub open spec fn assoc_lookup<V: View>(s: Seq<(String, V)>, k: Seq<char>) -> Option<V::V>
    decreases s.len(),
{
    if s.len() == 0 {
        None
    } else if s[0].0@ == k {
        Some(s[0].1@)
    } else {
        assoc_lookup(s.drop_first(), k)
    }
}

/// Keys are pairwise distinct.
pub open spec fn unique_keys<V>(s: Seq<(String, V)>) -> bool {
    forall|i: int, j: int| 0 <= i < j < s.len() ==> s[i].0@ != s[j].0@
}

/// Appending a pair with a key absent from `orig` makes lookups see the new
/// binding under that key and the old bindings elsewhere.
pub proof fn lemma_assoc_push<V: View>(orig: Seq<(String, V)>, k: Seq<char>, pair: (String, V))
    requires
        pair.0@ == k,
        forall|j: int| 0 <= j < orig.len() ==> orig[j].0@ != k,
    ensures
        forall|k2: Seq<char>|
            #[trigger] assoc_lookup(orig.push(pair), k2) == if k2 == k {
                Some(pair.1@)
            } else {
                assoc_lookup(orig, k2)
            },
    decreases orig.len(),
{
    if orig.len() == 0 {
        assert(orig.push(pair)[0] == pair);
        assert forall|k2: Seq<char>|
            #[trigger] assoc_lookup(orig.push(pair), k2) == if k2 == k {
                Some(pair.1@)
            } else {
                assoc_lookup(orig, k2)
            } by {
            assert(orig.push(pair).drop_first() =~= orig);
            if k2 != k {
                assert(assoc_lookup(orig, k2) is None);
            }
        }
    } else {
        lemma_assoc_push(orig.drop_first(), k, pair);
        assert forall|k2: Seq<char>|
            #[trigger] assoc_lookup(orig.push(pair), k2) == if k2 == k {
                Some(pair.1@)
            } else {
                assoc_lookup(orig, k2)
            } by {
            assert(orig.push(pair).drop_first() =~= orig.drop_first().push(pair));
            assert(orig.push(pair)[0] == orig[0]);
            assert(orig[0].0@ != k);
            assert(assoc_lookup(orig.drop_first().push(pair), k2) == if k2 == k {
                Some(pair.1@)
            } else {
                assoc_lookup(orig.drop_first(), k2)
            });
        }
    }
}

/// Removing the entry at index `i`, whose key is `k`, from a list with
/// pairwise-distinct keys and no earlier occurrence of `k`, removes exactly
/// that binding.
pub proof fn lemma_assoc_remove<V: View>(
    orig: Seq<(String, V)>,
    rem: Seq<(String, V)>,
    i: int,
    k: Seq<char>,
)
    requires
        0 <= i < orig.len(),
        rem == orig.remove(i),
        orig[i].0@ == k,
        forall|j: int| 0 <= j < i ==> orig[j].0@ != k,
        unique_keys(orig),
    ensures
        assoc_lookup(rem, k) is None,
        forall|k2: Seq<char>| k2 != k ==> assoc_lookup(rem, k2) == assoc_lookup(orig, k2),
        unique_keys(rem),
        forall|j: int| 0 <= j < rem.len() ==> rem[j].0@ != k,
    decreases i,
{
    assert forall|a: int, b: int| 0 <= a < b < rem.len() implies rem[a].0@ != rem[b].0@ by {
        let a2 = if a < i {
            a
        } else {
            a + 1
        };
        let b2 = if b < i {
            b
        } else {
            b + 1
        };
        assert(rem[a] == orig[a2] && rem[b] == orig[b2]);
    }
    assert forall|j: int| 0 <= j < rem.len() implies rem[j].0@ != k by {
        let j2 = if j < i {
            j
        } else {
            j + 1
        };
        assert(rem[j] == orig[j2]);
        if j2 > i {
            assert(orig[i].0@ != orig[j2].0@);
        }
    }
    if i == 0 {
        assert(rem =~= orig.drop_first());
        lemma_assoc_absent(rem, k);
        assert forall|k2: Seq<char>| k2 != k implies assoc_lookup(rem, k2) == assoc_lookup(
            orig,
            k2,
        ) by {
            assert(orig[0].0@ == k);
            assert(assoc_lookup(orig, k2) == assoc_lookup(orig.drop_first(), k2));
        }
    } else {
        assert(rem.drop_first() =~= orig.drop_first().remove(i - 1));
        assert forall|a: int, b: int|
            0 <= a < b < orig.drop_first().len() implies orig.drop_first()[a].0@
            != orig.drop_first()[b].0@ by {
            assert(orig.drop_first()[a] == orig[a + 1] && orig.drop_first()[b] == orig[b + 1]);
        }
        lemma_assoc_remove(orig.drop_first(), rem.drop_first(), i - 1, k);
        assert(rem[0] == orig[0]);
        assert(orig[0].0@ != k);
        assert(assoc_lookup(rem, k) is None);
        assert forall|k2: Seq<char>| k2 != k implies assoc_lookup(rem, k2) == assoc_lookup(
            orig,
            k2,
        ) by {
            if orig[0].0@ == k2 {
                assert(assoc_lookup(rem, k2) == Some(rem[0].1@));
                assert(assoc_lookup(orig, k2) == Some(orig[0].1@));
            } else {
                assert(assoc_lookup(rem, k2) == assoc_lookup(rem.drop_first(), k2));
                assert(assoc_lookup(orig, k2) == assoc_lookup(orig.drop_first(), k2));
            }
        }
    }
}

/// A key that occurs nowhere in the list is not found.
pub proof fn lemma_assoc_absent<V: View>(s: Seq<(String, V)>, k: Seq<char>)
    requires
        forall|j: int| 0 <= j < s.len() ==> s[j].0@ != k,
    ensures
        assoc_lookup(s, k) is None,
    decreases s.len(),
{
    if s.len() > 0 {
        lemma_assoc_absent(s.drop_first(), k);
    }
}

/// A found binding comes from some entry of the list.
pub proof fn lemma_assoc_some_means_entry<V: View>(s: Seq<(String, V)>, k: Seq<char>)
    requires
        assoc_lookup(s, k) is Some,
    ensures
        exists|i: int|
            0 <= i < s.len() && s[i].0@ == k && Some(#[trigger] s[i].1@) == assoc_lookup(s, k),
    decreases s.len(),
{
    if s.len() > 0 {
        if s[0].0@ == k {
            assert(s[0].1@ == assoc_lookup(s, k)->Some_0);
        } else {
            lemma_assoc_some_means_entry(s.drop_first(), k);
            let i = choose|i: int|
                0 <= i < s.drop_first().len() && s.drop_first()[i].0@ == k && Some(
                    #[trigger] s.drop_first()[i].1@,
                ) == assoc_lookup(s.drop_first(), k);
            assert(s[i + 1].0@ == k && Some(s[i + 1].1@) == assoc_lookup(s, k));
        }
    }
}

/// With pairwise-distinct keys, every entry is what its key looks up to.
pub proof fn lemma_assoc_entry_lookup<V: View>(s: Seq<(String, V)>, i: int)
    requires
        unique_keys(s),
        0 <= i < s.len(),
    ensures
        assoc_lookup(s, s[i].0@) == Some(s[i].1@),
    decreases i,
{
    if i == 0 {
    } else {
        assert(s[0].0@ != s[i].0@);
        assert forall|a: int, b: int|
            0 <= a < b < s.drop_first().len() implies s.drop_first()[a].0@
            != s.drop_first()[b].0@ by {
            assert(s.drop_first()[a] == s[a + 1] && s.drop_first()[b] == s[b + 1]);
        }
        lemma_assoc_entry_lookup(s.drop_first(), i - 1);
        assert(s.drop_first()[i - 1] == s[i]);
    }
}

/// Finds the position of the first entry keyed `k`.
pub fn assoc_find<V: View>(v: &Vec<(String, V)>, k: &str) -> (r: Option<usize>)
    ensures
        match r {
            Some(i) => {
                &&& 0 <= i < v@.len()
                &&& v@[i as int].0@ == k@
                &&& assoc_lookup(v@, k@) == Some(v@[i as int].1@)
                &&& forall|j: int| 0 <= j < i ==> v@[j].0@ != k@
            },
            None => {
                &&& assoc_lookup(v@, k@) is None
                &&& forall|j: int| 0 <= j < v@.len() ==> v@[j].0@ != k@
            },
        },
{
    proof {
        assert(v@.skip(0) =~= v@);
    }
    let mut i: usize = 0;
    while i < v.len()
        invariant
            i <= v@.len(),
            assoc_lookup(v@, k@) == assoc_lookup(v@.skip(i as int), k@),
            forall|j: int| 0 <= j < i ==> v@[j].0@ != k@,
        decreases v@.len() - i,
    {
        proof {
            assert(v@.skip(i as int).len() > 0);
            assert(v@.skip(i as int)[0] == v@[i as int]);
        }
        if str_eq(v[i].0.as_str(), k) {
            return Some(i);
        }
        proof {
            assert(v@.skip(i as int).drop_first() =~= v@.skip(i as int + 1));
        }
        i = i + 1;
    }
    proof {
        assert(v@.skip(i as int).len() == 0);
    }
    None
}

/// Removes the entry keyed `k`, if present; keys stay pairwise distinct.
pub fn assoc_remove_key<V: View>(v: &mut Vec<(String, V)>, k: &str)
    requires
        unique_keys(old(v)@),
    ensures
        unique_keys(final(v)@),
        assoc_lookup(final(v)@, k@) is None,
        forall|j: int| 0 <= j < final(v)@.len() ==> final(v)@[j].0@ != k@,
        forall|k2: Seq<char>|
            k2 != k@ ==> assoc_lookup(final(v)@, k2) == assoc_lookup(old(v)@, k2),
{
    let ghost orig = v@;
    match assoc_find(v, k) {
        Some(i) => {
            let ghost idx = i as int;
            v.remove(i);
            proof {
                lemma_assoc_remove(orig, v@, idx, k@);
            }
        },
        None => {},
    }
}

/// Binds `val` to `k`, replacing any earlier binding; keys stay pairwise
/// distinct.
pub fn assoc_set<V: View>(v: &mut Vec<(String, V)>, k: &str, val: V)
    requires
        unique_keys(old(v)@),
    ensures
        unique_keys(final(v)@),
        forall|k2: Seq<char>|
            assoc_lookup(final(v)@, k2) == if k2 == k@ {
                Some(val@)
            } else {
                assoc_lookup(old(v)@, k2)
            },
{
    assoc_remove_key(v, k);
    let ghost mid = v@;
    v.push((String::from_str(k), val));
    proof {
        let pair = v@[mid.len() as int];
        assert(v@ == mid.push(pair));
        assert(pair.0@ == k@);
        assert(pair.1 == val);
        lemma_assoc_push(mid, k@, pair);
        assert forall|a: int, b: int| 0 <= a < b < v@.len() implies v@[a].0@ != v@[b].0@ by {
            if b < mid.len() {
                assert(v@[a] == mid[a] && v@[b] == mid[b]);
            } else {
                assert(v@[a] == mid[a] && v@[b] == pair);
                assert(mid[a].0@ != k@);
            }
        }
    }
}

/// True when every character of `s` is an ASCII decimal digit.
pub open spec fn all_decimal_digits(s: Seq<char>) -> bool {
    forall|i: int| 0 <= i < s.len() ==> '0' <= #[trigger] s[i] <= '9'
}

/// A well-formed PIN: exactly six ASCII decimal digits.
pub open spec fn is_pin_code(s: Seq<char>) -> bool {
    s.len() == 6 && all_decimal_digits(s)
}

/// Decides whether an input string has the shape of a 6-digit PIN.
pub fn looks_like_pin(s: &str) -> (r: bool)
    ensures
        r == is_pin_code(s@),
{
    let n: usize = s.unicode_len();
    if n != 6 {
        return false;
    }
    let mut i: usize = 0;
    while i < n
        invariant
            n == s@.len(),
            n == 6,
            i <= n,
            forall|j: int| 0 <= j < i ==> '0' <= #[trigger] s@[j] <= '9',
        decreases n - i,
    {
        let ch = s.get_char(i);
        if !('0' <= ch && ch <= '9') {
            return false;
        }
        i = i + 1;
    }
    true
}

/// The six decimal digit characters of a number below one million,
/// most significant first.
pub open spec fn pin_digits(n: u64) -> Seq<char> {
    seq![
        hex_digit(((n / 100000) % 10) as int),
        hex_digit(((n / 10000) % 10) as int),
        hex_digit(((n / 1000) % 10) as int),
        hex_digit(((n / 100) % 10) as int),
        hex_digit(((n / 10) % 10) as int),
        hex_digit((n % 10) as int),
    ]
}

/// Renders a number below one million as exactly six decimal digits.
pub fn pin_string(n: u64) -> (r: String)
    requires
        n < 1000000,
    ensures
        r@ == pin_digits(n),
        is_pin_code(r@),
{
    let mut r = String::new();
    let d0: u8 = ((n / 100000) % 10) as u8;
    let d1: u8 = ((n / 10000) % 10) as u8;
    let d2: u8 = ((n / 1000) % 10) as u8;
    let d3: u8 = ((n / 100) % 10) as u8;
    let d4: u8 = ((n / 10) % 10) as u8;
    let d5: u8 = (n % 10) as u8;
    r.append(hex_digit_str(d0));
    r.append(hex_digit_str(d1));
    r.append(hex_digit_str(d2));
    r.append(hex_digit_str(d3));
    r.append(hex_digit_str(d4));
    r.append(hex_digit_str(d5));
    proof {
        assert(r@ =~= pin_digits(n));
        assert forall|i: int| 0 <= i < r@.len() implies '0' <= #[trigger] r@[i] <= '9' by {
            assert(forall|d: int| 0 <= d < 10 ==> '0' <= #[trigger] hex_digit(d) <= '9');
        }
    }
    r
}

} // verus!

