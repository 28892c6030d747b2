//! Verified text helpers the engine's decisions are built on: substring
//! search (plain and case-folded), the single-keystroke confirmation check,
//! decimal rendering of counters, and path-shaped string operations.

use vstd::prelude::*;

verus! {

/// ASCII case folding of one character; everything but `'A'..='Z'` is
/// left as it is.
pub open spec fn lower_char(c: char) -> char {
    match c {
        'A' => 'a',
        'B' => 'b',
        'C' => 'c',
        'D' => 'd',
        'E' => 'e',
        'F' => 'f',
        'G' => 'g',
        'H' => 'h',
        'I' => 'i',
        'J' => 'j',
        'K' => 'k',
        'L' => 'l',
        'M' => 'm',
        'N' => 'n',
        'O' => 'o',
        'P' => 'p',
        'Q' => 'q',
        'R' => 'r',
        'S' => 's',
        'T' => 't',
        'U' => 'u',
        'V' => 'v',
        'W' => 'w',
        'X' => 'x',
        'Y' => 'y',
        'Z' => 'z',
        _ => c,
    }
}

/// ASCII case folding of a whole sequence of characters.
pub open spec fn lower_seq(s: Seq<char>) -> Seq<char> {
    s.map_values(|c: char| lower_char(c))
}

/// `n` occurs in `h` starting at position `i`.
pub open spec fn matches_at(h: Seq<char>, n: Seq<char>, i: int) -> bool {
    0 <= i && i + n.len() <= h.len() && h.subrange(i, i + n.len() as int) == n
}

/// `n` occurs somewhere in `h`.
pub open spec fn has_sub(h: Seq<char>, n: Seq<char>) -> bool {
    exists|i: int| matches_at(h, n, i)
}

/// ASCII case folding of one character, at run time.
pub fn to_lower_char(c: char) -> (r: char)
    ensures
        r == lower_char(c),
{
    match c {
        'A' => 'a',
        'B' => 'b',
        'C' => 'c',
        'D' => 'd',
        'E' => 'e',
        'F' => 'f',
        'G' => 'g',
        'H' => 'h',
        'I' => 'i',
        'J' => 'j',
        'K' => 'k',
        'L' => 'l',
        'M' => 'm',
        'N' => 'n',
        'O' => 'o',
        'P' => 'p',
        'Q' => 'q',
        'R' => 'r',
        'S' => 's',
        'T' => 't',
        'U' => 'u',
        'V' => 'v',
        'W' => 'w',
        'X' => 'x',
        'Y' => 'y',
        'Z' => 'z',
        _ => c,
    }
}

/// Substring search: does `n` occur in `h`?
pub fn contains_str(h: &str, n: &str) -> (r: bool)
    ensures
        r == has_sub(h@, n@),
{
    let hl = h.unicode_len();
    let nl = n.unicode_len();
    if nl > hl {
        return false;
    }
    let mut i: usize = 0;
    while i <= hl - nl
        invariant
            nl <= hl,
            hl == h@.len(),
            nl == n@.len(),
            i <= hl - nl + 1,
            forall|j: int| 0 <= j < i ==> !matches_at(h@, n@, j),
        decreases hl - nl - i + 1,
    {
        let mut k: usize = 0;
        let mut ok = true;
        while k < nl && ok
            invariant
                nl <= hl,
                hl == h@.len(),
                nl == n@.len(),
                i <= hl - nl,
                k <= nl,
                ok ==> forall|t: int| 0 <= t < k ==> h@[i + t] == n@[t],
                !ok ==> exists|t: int| 0 <= t < nl && h@[i + t] != n@[t],
            decreases nl - k + if ok {
                1int
            } else {
                0int
            },
        {
            if h.get_char(i + k) != n.get_char(k) {
                ok = false;
                proof {
                    assert(h@[i + k] != n@[k as int]);
                }
            } else {
                k += 1;
            }
        }
        if ok {
            proof {
                assert(h@.subrange(i as int, i + nl) =~= n@);
                assert(matches_at(h@, n@, i as int));
            }
            return true;
        } else {
            proof {
                let t = choose|t: int| 0 <= t < nl && h@[i + t] != n@[t];
                assert(!matches_at(h@, n@, i as int)) by {
                    if h@.subrange(i as int, i + nl) == n@ {
                        assert(h@.subrange(i as int, i + nl)[t] == h@[i + t]);
                    }
                }
            }
        }
        i += 1;
    }
    proof {
        assert forall|j: int| matches_at(h@, n@, j) implies false by {
            assert(0 <= j < i);
        }
    }
    false
}

/// Substring search after ASCII case folding of the haystack: does `n`
/// occur in the lowered form of `h`?
pub fn contains_lowered(h: &str, n: &str) -> (r: bool)
    ensures
        r == has_sub(lower_seq(h@), n@),
{
    let hl = h.unicode_len();
    let nl = n.unicode_len();
    proof {
        assert(lower_seq(h@).len() == h@.len());
    }
    if nl > hl {
        return false;
    }
    let mut i: usize = 0;
    while i <= hl - nl
        invariant
            nl <= hl,
            hl == h@.len(),
            nl == n@.len(),
            lower_seq(h@).len() == h@.len(),
            i <= hl - nl + 1,
            forall|j: int| 0 <= j < i ==> !matches_at(lower_seq(h@), n@, j),
        decreases hl - nl - i + 1,
    {
        let mut k: usize = 0;
        let mut ok = true;
        while k < nl && ok
            invariant
                nl <= hl,
                hl == h@.len(),
                nl == n@.len(),
                lower_seq(h@).len() == h@.len(),
                i <= hl - nl,
                k <= nl,
                ok ==> forall|t: int| 0 <= t < k ==> lower_seq(h@)[i + t] == n@[t],
                !ok ==> exists|t: int| 0 <= t < nl && lower_seq(h@)[i + t] != n@[t],
            decreases nl - k + if ok {
                1int
            } else {
                0int
            },
        {
            if to_lower_char(h.get_char(i + k)) != n.get_char(k) {
                ok = false;
                proof {
                    assert(lower_seq(h@)[i + k] == lower_char(h@[i + k]));
                    assert(lower_seq(h@)[i + k] != n@[k as int]);
                }
            } else {
                proof {
                    assert(lower_seq(h@)[i + k] == lower_char(h@[i + k]));
                }
                k += 1;
            }
        }
        if ok {
            proof {
                assert(lower_seq(h@).subrange(i as int, i + nl) =~= n@);
                assert(matches_at(lower_seq(h@), n@, i as int));
            }
            return true;
        } else {
            proof {
                let t = choose|t: int| 0 <= t < nl && lower_seq(h@)[i + t] != n@[t];
                assert(!matches_at(lower_seq(h@), n@, i as int)) by {
                    if lower_seq(h@).subrange(i as int, i + nl) == n@ {
                        assert(lower_seq(h@).subrange(i as int, i + nl)[t] == lower_seq(h@)[i
                            + t]);
                    }
                }
            }
        }
        i += 1;
    }
    proof {
        assert forall|j: int| matches_at(lower_seq(h@), n@, j) implies false by {
            assert(0 <= j < i);
        }
    }
    false
}

/// ASCII whitespace, the characters the confirmation check ignores.
pub open spec fn is_space_char(c: char) -> bool {
    c == ' ' || c == '\t' || c == '\n' || c == '\r'
}

/// An answer is affirmative when, ignoring surrounding whitespace, it is
/// exactly the single letter `y` in either case: one position holds `y` or
/// `Y` and every other position holds whitespace.
pub open spec fn spec_affirmative(s: Seq<char>) -> bool {
    exists|i: int|
        0 <= i < s.len() && (s[i] == 'y' || s[i] == 'Y') && (forall|j: int|
            0 <= j < s.len() && j != i ==> is_space_char(s[j]))
}

/// Decide whether a typed answer is an affirmative `y`.
pub fn is_affirmative(s: &str) -> (r: bool)
    ensures
        r == spec_affirmative(s@),
{
    let l = s.unicode_len();
    let mut i: usize = 0;
    let mut seen: usize = 0;
    let mut yes = false;
    let ghost mut w: int = 0;
    let ghost mut w2: int = 0;
    while i < l
        invariant
            l == s@.len(),
            i <= l,
            seen <= 2,
            seen == 0 ==> forall|j: int| 0 <= j < i ==> is_space_char(s@[j]),
            seen == 1 ==> 0 <= w < i && !is_space_char(s@[w]) && (yes <==> (s@[w] == 'y' || s@[w]
                == 'Y')) && (forall|j: int| 0 <= j < i && j != w ==> is_space_char(s@[j])),
            seen == 2 ==> 0 <= w < w2 < i && !is_space_char(s@[w]) && !is_space_char(s@[w2]),
        decreases l - i,
    {
        let c = s.get_char(i);
        if !(c == ' ' || c == '\t' || c == '\n' || c == '\r') {
            if seen == 0 {
                seen = 1;
                yes = c == 'y' || c == 'Y';
                proof {
                    w = i as int;
                }
            } else if seen == 1 {
                seen = 2;
                proof {
                    w2 = i as int;
                }
            }
        }
        i += 1;
    }
    if seen == 1 && yes {
        proof {
            assert(spec_affirmative(s@)) by {
                assert(0 <= w < s@.len() && (s@[w] == 'y' || s@[w] == 'Y') && (forall|j: int|
                    0 <= j < s@.len() && j != w ==> is_space_char(s@[j])));
            }
        }
        true
    } else {
        proof {
            if spec_affirmative(s@) {
                let i0 = choose|i0: int|
                    0 <= i0 < s@.len() && (s@[i0] == 'y' || s@[i0] == 'Y') && (forall|j: int|
                        0 <= j < s@.len() && j != i0 ==> is_space_char(s@[j]));
                assert(!is_space_char(s@[i0]));
                if seen == 0 {
                    assert(false);
                } else if seen == 1 {
                    assert(w == i0);
                    assert(false);
                } else {
                    assert(w == i0 && w2 == i0);
                    assert(false);
                }
            }
        }
        false
    }
}

/// The decimal rendering of a natural number, most significant digit first.
pub open spec fn spec_decimal(n: nat) -> Seq<char>
    decreases n,
{
    if n < 10 {
        seq![digit_char(n)]
    } else {
        spec_decimal(n / 10).push(digit_char(n % 10))
    }
}

/// The character for one decimal digit.
pub open spec fn digit_char(d: nat) -> char {
    if d == 0 {
        '0'
    } else if d == 1 {
        '1'
    } else if d == 2 {
        '2'
    } else if d == 3 {
        '3'
    } else if d == 4 {
        '4'
    } else if d == 5 {
        '5'
    } else if d == 6 {
        '6'
    } else if d == 7 {
        '7'
    } else if d == 8 {
        '8'
    } else {
        '9'
    }
}

/// The one-character string for one decimal digit.
fn digit_str(d: u64) -> (r: &'static str)
    requires
        d < 10,
    ensures
        r@ == seq![digit_char(d as nat)],
{
    if d == 0 {
        proof {
            reveal_strlit("0");
            assert("0"@ =~= seq![digit_char(0)]);
        }
        "0"
    } else if d == 1 {
        proof {
            reveal_strlit("1");
            assert("1"@ =~= seq![digit_char(1)]);
        }
        "1"
    } else if d == 2 {
        proof {
            reveal_strlit("2");
            assert("2"@ =~= seq![digit_char(2)]);
        }
        "2"
    } else if d == 3 {
        proof {
            reveal_strlit("3");
            assert("3"@ =~= seq![digit_char(3)]);
        }
        "3"
    } else if d == 4 {
        proof {
            reveal_strlit("4");
            assert("4"@ =~= seq![digit_char(4)]);
        }
        "4"
    } else if d == 5 {
        proof {
            reveal_strlit("5");
            assert("5"@ =~= seq![digit_char(5)]);
        }
        "5"
    } else if d == 6 {
        proof {
            reveal_strlit("6");
            assert("6"@ =~= seq![digit_char(6)]);
        }
        "6"
    } else if d == 7 {
        proof {
            reveal_strlit("7");
            assert("7"@ =~= seq![digit_char(7)]);
        }
        "7"
    } else if d == 8 {
        proof {
            reveal_strlit("8");
            assert("8"@ =~= seq![digit_char(8)]);
        }
        "8"
    } else {
        proof {
            reveal_strlit("9");
            assert("9"@ =~= seq![digit_char(9)]);
        }
        "9"
    }
}

/// Append the decimal rendering of `n` to `s`.
pub fn push_decimal(s: &mut String, n: u64)
    ensures
        final(s)@ == old(s)@ + spec_decimal(n as nat),
    decreases n,
{
    if n < 10 {
        s.append(digit_str(n));
        proof {
            assert(old(s)@ + seq![digit_char(n as nat)] =~= old(s)@ + spec_decimal(n as nat));
        }
    } else {
        push_decimal(s, n / 10);
        s.append(digit_str(n % 10));
        proof {
            assert(old(s)@ + spec_decimal((n / 10) as nat) + seq![digit_char((n % 10) as nat)]
                =~= old(s)@ + spec_decimal(n as nat));
        }
    }
}

/// The decimal rendering of an integer: a minus sign for a negative
/// value, then the digits of its magnitude.
pub open spec fn spec_signed_decimal(n: int) -> Seq<char> {
    if n >= 0 {
        spec_decimal(n as nat)
    } else {
        seq!['-'] + spec_decimal((-n) as nat)
    }
}

/// Append the decimal rendering of the signed `n` to `s`.
pub fn push_signed_decimal(s: &mut String, n: i64)
    ensures
        final(s)@ == old(s)@ + spec_signed_decimal(n as int),
{
    if n >= 0 {
        push_decimal(s, n as u64);
    } else {
        s.append("-");
        let ghost mid = s@;
        let magnitude = (-(n as i128)) as u64;
        push_decimal(s, magnitude);
        proof {
            reveal_strlit("-");
            assert(old(s)@ + "-"@ + spec_decimal(magnitude as nat) =~= old(s)@ + (seq!['-']
                + spec_decimal((-(n as int)) as nat)));
        }
    }
}

/// The decimal rendering of `n` as a fresh string.
pub fn decimal_string(n: usize) -> (r: String)
    ensures
        r@ == spec_decimal(n as nat),
{
    let mut s = String::new();
    push_decimal(&mut s, n as u64);
    proof {
        assert(Seq::<char>::empty() + spec_decimal(n as nat) =~= spec_decimal(n as nat));
    }
    s
}

/// The path `p` relative to `base`: what follows `base` and its
/// separating `/` when `base` is a leading piece of `p` ending at a
/// component boundary; `p` itself when it lies outside `base`. A `base`
/// that already ends in `/` supplies its own boundary, as the usual
/// component-wise prefix strip would. An empty `base` strips nothing.
pub open spec fn spec_rel_path(p: Seq<char>, base: Seq<char>) -> Seq<char> {
    if base.len() == 0 {
        p
    } else if base.last() == '/' {
        if p.len() >= base.len() && p.take(base.len() as int) == base {
            p.skip(base.len() as int)
        } else {
            p
        }
    } else if p.len() > base.len() && p.take(base.len() as int) == base && p[base.len() as int]
        == '/' {
        p.skip(base.len() + 1int)
    } else if p == base {
        Seq::empty()
    } else {
        p
    }
}

/// Strip `base` and the separating `/` from the front of `p`, for
/// display; a path outside `base` is returned whole.
pub fn rel_path(p: &str, base: &str) -> (r: String)
    ensures
        r@ == spec_rel_path(p@, base@),
{
    let pl = p.unicode_len();
    let bl = base.unicode_len();
    if bl == 0 || pl < bl {
        return p.to_owned();
    }
    let mut i: usize = 0;
    while i < bl
        invariant
            0 < bl <= pl,
            pl == p@.len(),
            bl == base@.len(),
            i <= bl,
            forall|j: int| 0 <= j < i ==> p@[j] == base@[j],
        decreases bl - i,
    {
        if p.get_char(i) != base.get_char(i) {
            proof {
                assert(p@.take(bl as int)[i as int] != base@[i as int]);
                if p@ == base@ {
                    assert(p@[i as int] == base@[i as int]);
                }
            }
            return p.to_owned();
        }
        i += 1;
    }
    proof {
        assert(p@.take(bl as int) =~= base@);
    }
    if base.get_char(bl - 1) == '/' {
        let r = p.substring_char(bl, pl).to_owned();
        proof {
            assert(r@ =~= p@.skip(bl as int));
        }
        return r;
    }
    if pl == bl {
        proof {
            assert(p@.take(bl as int) =~= p@);
        }
        let r = String::new();
        return r;
    }
    if p.get_char(bl) == '/' {
        let r = p.substring_char(bl + 1, pl).to_owned();
        proof {
            assert(r@ =~= p@.skip(bl + 1));
        }
        return r;
    }
    p.to_owned()
}

/// `p` names a file with extension `ext`: it ends in `.` followed by
/// `ext`, and the dot is neither the first character of the final path
/// component nor the whole of it.
pub open spec fn spec_has_extension(p: Seq<char>, ext: Seq<char>) -> bool {
    &&& p.len() >= ext.len() + 2
    &&& p[p.len() - ext.len() - 1] == '.'
    &&& p.skip(p.len() - ext.len() as int) == ext
    &&& p[p.len() - ext.len() - 2] != '/'
}

/// Does the path end in `.` plus `ext` (with a nonempty stem)?
pub fn has_extension(p: &str, ext: &str) -> (r: bool)
    ensures
        r == spec_has_extension(p@, ext@),
{
    let pl = p.unicode_len();
    let el = ext.unicode_len();
    if pl < 2 || pl - 2 < el {
        return false;
    }
    if p.get_char(pl - el - 1) != '.' {
        return false;
    }
    if p.get_char(pl - el - 2) == '/' {
        return false;
    }
    let mut i: usize = 0;
    while i < el
        invariant
            pl >= el + 2,
            pl == p@.len(),
            el == ext@.len(),
            i <= el,
            forall|j: int| 0 <= j < i ==> p@[pl - el + j] == ext@[j],
        decreases el - i,
    {
        if p.get_char(pl - el + i) != ext.get_char(i) {
            proof {
                assert(p@.skip(pl - el as int)[i as int] != ext@[i as int]);
            }
            return false;
        }
        i += 1;
    }
    proof {
        assert(p@.skip(pl - el as int) =~= ext@);
    }
    true
}

} // verus!
