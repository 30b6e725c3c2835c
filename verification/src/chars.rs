//! Character-level helpers shared by the codec and the tag normalizer:
//! whitespace classification, runs of characters satisfying a predicate,
//! trimming, and decimal digit strings for id tokens.
use vstd::prelude::*;

verus! {

/// Whitespace, as the line grammar and trimming understand it.
pub open spec fn is_ws_char(c: char) -> bool {
    c == ' ' || c == '\t' || c == '\n' || c == '\u{000B}' || c == '\u{000C}' || c == '\r'
}

/// A decimal digit.
pub open spec fn is_digit_char(c: char) -> bool {
    48 <= c as u32 && c as u32 <= 57
}

/// First index at or after `i` whose character fails `p` (or the length).
pub open spec fn run_end(s: Seq<char>, i: int, p: spec_fn(char) -> bool) -> int
    decreases s.len() - i,
{
    if i < s.len() && 0 <= i && p(s[i]) {
        run_end(s, i + 1, p)
    } else {
        i
    }
}

pub proof fn lemma_run_end_bounds(s: Seq<char>, i: int, p: spec_fn(char) -> bool)
    requires
        0 <= i <= s.len(),
    ensures
        i <= run_end(s, i, p) <= s.len(),
        forall|k: int| i <= k < run_end(s, i, p) ==> p(s[k]),
        run_end(s, i, p) == s.len() || !p(s[run_end(s, i, p)]),
    decreases s.len() - i,
{
    if i < s.len() && p(s[i]) {
        lemma_run_end_bounds(s, i + 1, p);
    }
}

pub proof fn lemma_run_end_unique(s: Seq<char>, i: int, p: spec_fn(char) -> bool, j: int)
    requires
        0 <= i <= j <= s.len(),
        forall|k: int| i <= k < j ==> p(s[k]),
        j == s.len() || !p(s[j]),
    ensures
        run_end(s, i, p) == j,
    decreases s.len() - i,
{
    if i < s.len() && p(s[i]) {
        lemma_run_end_unique(s, i + 1, p, j);
    }
}

/// First index at or before `i` such that every character from it up to `i`
/// satisfies `p`, scanning backwards; stops below a character failing `p`.
pub open spec fn rev_run_end(s: Seq<char>, i: int, p: spec_fn(char) -> bool) -> int
    decreases i,
{
    if 0 < i && i <= s.len() && p(s[i - 1]) {
        rev_run_end(s, i - 1, p)
    } else {
        i
    }
}

pub proof fn lemma_rev_run_end_bounds(s: Seq<char>, i: int, p: spec_fn(char) -> bool)
    requires
        0 <= i <= s.len(),
    ensures
        0 <= rev_run_end(s, i, p) <= i,
        forall|k: int| rev_run_end(s, i, p) <= k < i ==> p(s[k]),
        rev_run_end(s, i, p) == 0 || !p(s[rev_run_end(s, i, p) - 1]),
    decreases i,
{
    if 0 < i && p(s[i - 1]) {
        lemma_rev_run_end_bounds(s, i - 1, p);
    }
}

pub proof fn lemma_rev_run_end_unique(s: Seq<char>, i: int, p: spec_fn(char) -> bool, j: int)
    requires
        0 <= j <= i <= s.len(),
        forall|k: int| j <= k < i ==> p(s[k]),
        j == 0 || !p(s[j - 1]),
    ensures
        rev_run_end(s, i, p) == j,
    decreases i,
{
    if 0 < i && p(s[i - 1]) {
        lemma_rev_run_end_unique(s, i - 1, p, j);
    }
}

pub proof fn lemma_rev_run_end_above(s: Seq<char>, i: int, p: spec_fn(char) -> bool, k: int)
    requires
        0 <= k < i <= s.len(),
        !p(s[k]),
    ensures
        rev_run_end(s, i, p) >= k + 1,
    decreases i,
{
    if 0 < i && p(s[i - 1]) {
        lemma_rev_run_end_above(s, i - 1, p, k);
    }
}

/// Whitespace, as a predicate value for run scanning.
pub open spec fn ws_pred() -> spec_fn(char) -> bool {
    |c: char| is_ws_char(c)
}

/// Everything but a comma, as a predicate value for run scanning.
pub open spec fn not_comma_pred() -> spec_fn(char) -> bool {
    |c: char| c != ','
}

/// The line with leading and trailing whitespace removed.
pub open spec fn trim_spec(s: Seq<char>) -> Seq<char> {
    let a = run_end(s, 0, ws_pred());
    if a == s.len() {
        Seq::<char>::empty()
    } else {
        s.subrange(a, rev_run_end(s, s.len() as int, ws_pred()))
    }
}

/// No whitespace at either end.
pub open spec fn is_trimmed(s: Seq<char>) -> bool {
    s.len() == 0 || (!is_ws_char(s[0]) && !is_ws_char(s[s.len() - 1]))
}

pub proof fn lemma_trim_trimmed(s: Seq<char>)
    ensures
        is_trimmed(trim_spec(s)),
        trim_spec(s).len() <= s.len(),
{
    let p = ws_pred();
    let a = run_end(s, 0, p);
    lemma_run_end_bounds(s, 0, p);
    if a < s.len() {
        let b = rev_run_end(s, s.len() as int, p);
        lemma_rev_run_end_bounds(s, s.len() as int, p);
        lemma_rev_run_end_above(s, s.len() as int, p, a);
    }
}

pub proof fn lemma_trim_of_trimmed(s: Seq<char>)
    requires
        is_trimmed(s),
    ensures
        trim_spec(s) == s,
{
    let p = ws_pred();
    if s.len() == 0 {
        lemma_run_end_unique(s, 0, p, 0);
        assert(trim_spec(s) =~= s);
    } else {
        lemma_run_end_unique(s, 0, p, 0);
        assert(rev_run_end(s, s.len() as int, p) == s.len());
        assert(trim_spec(s) =~= s);
    }
}

/// Every character of the line, in order.
pub fn str_to_chars(s: &str) -> (r: Vec<char>)
    ensures
        r@ == s@,
{
    let n = s.unicode_len();
    let mut r: Vec<char> = Vec::new();
    let mut i: usize = 0;
    while i < n
        invariant
            n == s@.len(),
            i <= n,
            r@ == s@.take(i as int),
        decreases n - i,
    {
        r.push(s.get_char(i));
        i = i + 1;
        proof {
            assert(r@ =~= s@.take(i as int));
        }
    }
    proof {
        assert(r@ =~= s@);
    }
    r
}

/// Whitespace test on one character.
pub fn ws_char(c: char) -> (r: bool)
    ensures
        r == is_ws_char(c),
{
    c == ' ' || c == '\t' || c == '\n' || c == '\u{000B}' || c == '\u{000C}' || c == '\r'
}

/// Digit test on one character.
pub fn digit_char_test(c: char) -> (r: bool)
    ensures
        r == is_digit_char(c),
{
    let u = c as u32;
    48 <= u && u <= 57
}

/// The canonical character for the decimal digit `d`.
pub open spec fn digit_char(d: nat) -> char {
    if d == 0 {
        '0'
    } else if d == 1 {
        '1'
    } else if d == 2 {
        '2'
    } else if d == 3 {
        '3'
    } else if d == 4 {
        '4'
    } else if d == 5 {
        '5'
    } else if d == 6 {
        '6'
    } else if d == 7 {
        '7'
    } else if d == 8 {
        '8'
    } else {
        '9'
    }
}

/// The value of a digit character; zero for anything else.
pub open spec fn digit_val(c: char) -> nat {
    if is_digit_char(c) {
        (c as u32 - 48) as nat
    } else {
        0
    }
}

/// The decimal rendering of `n`, most significant digit first, no sign and
/// no leading zeros (a single zero for zero itself).
pub open spec fn dec_str(n: nat) -> Seq<char>
    decreases n,
{
    if n < 10 {
        seq![digit_char(n)]
    } else {
        dec_str(n / 10).push(digit_char(n % 10))
    }
}

/// The number a digit string denotes.
pub open spec fn dec_val(s: Seq<char>) -> nat
    decreases s.len(),
{
    if s.len() == 0 {
        0
    } else {
        dec_val(s.drop_last()) * 10 + digit_val(s.last())
    }
}

pub proof fn lemma_dec_str_digits(n: nat)
    ensures
        dec_str(n).len() >= 1,
        forall|k: int| 0 <= k < dec_str(n).len() ==> is_digit_char(dec_str(n)[k]),
    decreases n,
{
    if n >= 10 {
        lemma_dec_str_digits(n / 10);
    }
}

pub proof fn lemma_digit_round_trip(d: nat)
    requires
        d < 10,
    ensures
        digit_val(digit_char(d)) == d,
{
    assert('0' as u32 == 48);
    assert('1' as u32 == 49);
    assert('2' as u32 == 50);
    assert('3' as u32 == 51);
    assert('4' as u32 == 52);
    assert('5' as u32 == 53);
    assert('6' as u32 == 54);
    assert('7' as u32 == 55);
    assert('8' as u32 == 56);
    assert('9' as u32 == 57);
}

/// Rendering and reading back are inverse.
pub proof fn lemma_dec_val_of_dec_str(n: nat)
    ensures
        dec_val(dec_str(n)) == n,
    decreases n,
{
    if n < 10 {
        lemma_digit_round_trip(n);
        assert(dec_str(n) =~= seq![digit_char(n)]);
        assert(dec_str(n).drop_last() =~= Seq::<char>::empty());
        assert(dec_str(n).last() == digit_char(n));
        assert(dec_val(dec_str(n)) == dec_val(Seq::<char>::empty()) * 10 + digit_val(digit_char(n)));
        assert(dec_val(dec_str(n)) == n);
    } else {
        lemma_dec_val_of_dec_str(n / 10);
        lemma_digit_round_trip(n % 10);
        assert(dec_str(n).drop_last() =~= dec_str(n / 10));
        assert(dec_str(n).last() == digit_char(n % 10));
        assert(n / 10 * 10 + n % 10 == n) by (nonlinear_arith);
    }
}

/// A longer digit string never denotes a smaller number.
pub proof fn lemma_dec_val_prefix(s: Seq<char>, k: int)
    requires
        0 <= k <= s.len(),
    ensures
        dec_val(s) >= dec_val(s.take(k)),
    decreases s.len() - k,
{
    if k < s.len() {
        lemma_dec_val_prefix(s, k + 1);
        assert(s.take(k + 1).drop_last() =~= s.take(k));
        assert(dec_val(s.take(k + 1)) == dec_val(s.take(k)) * 10 + digit_val(s.take(k + 1).last()));
    } else {
        assert(s.take(k) =~= s);
    }
}

/// Appends the decimal rendering of `n` to `out`.
pub fn push_dec(out: &mut String, n: u64)
    ensures
        final(out)@ == old(out)@ + dec_str(n as nat),
    decreases n,
{
    if n >= 10 {
        push_dec(out, n / 10);
    }
    let d = n % 10;
    match d {
        0 => out.append("0"),
        1 => out.append("1"),
        2 => out.append("2"),
        3 => out.append("3"),
        4 => out.append("4"),
        5 => out.append("5"),
        6 => out.append("6"),
        7 => out.append("7"),
        8 => out.append("8"),
        _ => out.append("9"),
    }
    proof {
        reveal_strlit("0");
        reveal_strlit("1");
        reveal_strlit("2");
        reveal_strlit("3");
        reveal_strlit("4");
        reveal_strlit("5");
        reveal_strlit("6");
        reveal_strlit("7");
        reveal_strlit("8");
        reveal_strlit("9");
        if n < 10 {
            assert(out@ =~= old(out)@ + dec_str(n as nat));
        } else {
            assert(out@ =~= old(out)@ + dec_str(n as nat));
        }
    }
}

/// The decimal rendering of `n` as a fresh string.
pub fn u64_to_dec(n: u64) -> (r: String)
    ensures
        r@ == dec_str(n as nat),
{
    let mut s = String::new();
    push_dec(&mut s, n);
    proof {
        assert(s@ =~= dec_str(n as nat));
    }
    s
}

/// Reads the digit run `v[from..to]` as a number; `None` when it does not
/// fit in a `u64`.
pub fn parse_dec(v: &Vec<char>, from: usize, to: usize) -> (r: Option<u64>)
    requires
        from <= to <= v@.len(),
        forall|k: int| from <= k < to ==> is_digit_char(v@[k]),
    ensures
        match r {
            Some(x) => x as nat == dec_val(v@.subrange(from as int, to as int)),
            None => dec_val(v@.subrange(from as int, to as int)) > u64::MAX,
        },
{
    let s = Ghost(v@.subrange(from as int, to as int));
    let mut acc: u64 = 0;
    let mut i: usize = from;
    while i < to
        invariant
            from <= i <= to <= v@.len(),
            s@ == v@.subrange(from as int, to as int),
            forall|k: int| from <= k < to ==> is_digit_char(v@[k]),
            acc as nat == dec_val(s@.take(i - from)),
        decreases to - i,
    {
        let c = v[i];
        let d: u64 = (c as u32 - 48) as u64;
        if acc > (u64::MAX - d) / 10 {
            proof {
                assert(acc * 10 + d > u64::MAX) by (nonlinear_arith)
                    requires
                        acc > (u64::MAX - d) / 10,
                        d <= 9,
                ;
                assert(s@.take(i - from + 1).drop_last() =~= s@.take(i - from));
                assert(s@.take(i - from + 1).last() == c);
                assert(dec_val(s@.take(i - from + 1)) == acc * 10 + d);
                lemma_dec_val_prefix(s@, i - from + 1);
            }
            return None;
        }
        proof {
            assert(acc * 10 + d <= u64::MAX) by (nonlinear_arith)
                requires
                    acc <= (u64::MAX - d) / 10,
                    d <= 9,
            ;
            assert(s@.take(i - from + 1).drop_last() =~= s@.take(i - from));
            assert(s@.take(i - from + 1).last() == c);
        }
        acc = acc * 10 + d;
        i = i + 1;
    }
    proof {
        assert(s@.take(to - from) =~= s@);
    }
    Some(acc)
}

} // verus!
