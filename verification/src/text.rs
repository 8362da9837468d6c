//! Byte-level text utilities shared by the parser, the response builder and
//! the storage gateway: ASCII whitespace trimming, case-insensitive
//! comparison, suffix tests, and decimal conversion in both directions.

use vstd::prelude::*;

verus! {

/// Carriage return.
pub const CR: u8 = 13;

/// Line feed.
pub const LF: u8 = 10;

/// Space.
pub const SP: u8 = 32;

/// `/`, the path separator.
pub const SLASH: u8 = 47;

/// `.`, the extension separator.
pub const DOT: u8 = 46;

/// `:`, the header key/value separator.
pub const COLON: u8 = 58;

/// `+`, an optional sign accepted in front of a decimal number.
pub const PLUS: u8 = 43;

/// ASCII whitespace, as recognised when trimming and when splitting the
/// request line into its fields.
pub open spec fn is_ws(b: u8) -> bool {
    b == SP || (9 <= b && b <= 13)
}

/// ASCII decimal digit.
pub open spec fn is_digit(b: u8) -> bool {
    48 <= b && b <= 57
}

/// The value of a decimal digit byte; zero for anything else.
pub open spec fn digit_val(b: u8) -> nat {
    if is_digit(b) {
        (b - 48) as nat
    } else {
        0
    }
}

/// An ASCII upper-case letter mapped to lower case; every other byte kept.
pub open spec fn lower_byte(b: u8) -> u8 {
    if 65 <= b && b <= 90 {
        (b + 32) as u8
    } else {
        b
    }
}

/// Byte sequences equal up to ASCII case.
pub open spec fn eq_ignore_case(a: Seq<u8>, b: Seq<u8>) -> bool {
    a.len() == b.len() && forall|i: int| 0 <= i < a.len() ==> lower_byte(a[i]) == lower_byte(b[i])
}

/// `s` without its leading ASCII whitespace.
pub open spec fn trim_start(s: Seq<u8>) -> Seq<u8>
    decreases s.len(),
{
    if s.len() > 0 && is_ws(s[0]) {
        trim_start(s.skip(1))
    } else {
        s
    }
}

/// `s` without its trailing ASCII whitespace.
pub open spec fn trim_end(s: Seq<u8>) -> Seq<u8>
    decreases s.len(),
{
    if s.len() > 0 && is_ws(s.last()) {
        trim_end(s.drop_last())
    } else {
        s
    }
}

/// `s` without surrounding ASCII whitespace.
pub open spec fn trim_bytes(s: Seq<u8>) -> Seq<u8> {
    trim_end(trim_start(s))
}

/// Whether `s` ends with `suffix`.
pub open spec fn ends_with_bytes(s: Seq<u8>, suffix: Seq<u8>) -> bool {
    s.len() >= suffix.len() && s.subrange(s.len() - suffix.len(), s.len() as int) == suffix
}

/// The index of the last occurrence of `b` in `s`.
pub open spec fn last_index_of(s: Seq<u8>, b: u8) -> Option<int>
    decreases s.len(),
{
    if s.len() == 0 {
        Option::<int>::None
    } else if s.last() == b {
        Option::Some(s.len() - 1)
    } else {
        last_index_of(s.drop_last(), b)
    }
}

/// Folds decimal digits over an accumulator: the value of `acc` followed by
/// the digits of `s`.
pub open spec fn digits_val_acc(s: Seq<u8>, acc: nat) -> nat
    decreases s.len(),
{
    if s.len() == 0 {
        acc
    } else {
        digits_val_acc(s.skip(1), acc * 10 + digit_val(s[0]))
    }
}

/// Whether every byte of `s` is a decimal digit.
pub open spec fn all_digits(s: Seq<u8>) -> bool {
    forall|i: int| 0 <= i < s.len() ==> is_digit(s[i])
}

/// The number that `s` denotes in decimal, after an optional leading `+`:
/// `None` when `s` holds anything but digits, is empty, or denotes a value
/// above `usize::MAX`.
pub open spec fn spec_parse_usize(s: Seq<u8>) -> Option<nat> {
    let t = if s.len() > 0 && s[0] == PLUS {
        s.skip(1)
    } else {
        s
    };
    if t.len() > 0 && all_digits(t) && digits_val_acc(t, 0) <= usize::MAX {
        Option::Some(digits_val_acc(t, 0))
    } else {
        Option::<nat>::None
    }
}

/// The decimal digits of `n`, most significant first.
pub open spec fn dec_digits(n: nat) -> Seq<u8>
    decreases n,
{
    if n < 10 {
        seq![(48 + n) as u8]
    } else {
        dec_digits(n / 10).push((48 + n % 10) as u8)
    }
}

/// The fold of digits over an accumulator never falls below the accumulator.
pub proof fn lemma_digits_val_acc_ge(s: Seq<u8>, acc: nat)
    ensures
        digits_val_acc(s, acc) >= acc,
    decreases s.len(),
{
    if s.len() > 0 {
        lemma_digits_val_acc_ge(s.skip(1), acc * 10 + digit_val(s[0]));
    }
}

/// The byte sequences that a sequence of byte vectors holds.
pub open spec fn seqs_view(v: Seq<Vec<u8>>) -> Seq<Seq<u8>> {
    Seq::new(v.len(), |i: int| v[i]@)
}

/// The pairs of byte sequences that a sequence of byte-vector pairs holds.
pub open spec fn pairs_view(v: Seq<(Vec<u8>, Vec<u8>)>) -> Seq<(Seq<u8>, Seq<u8>)> {
    Seq::new(v.len(), |i: int| (v[i].0@, v[i].1@))
}

/// Appends all of `src` to `dst`.
pub fn append_bytes(dst: &mut Vec<u8>, src: &[u8])
    ensures
        final(dst)@ == old(dst)@ + src@,
{
    let mut i: usize = 0;
    while i < src.len()
        invariant
            0 <= i <= src.len(),
            dst@ == old(dst)@ + src@.subrange(0, i as int),
        decreases src.len() - i,
    {
        dst.push(src[i]);
        proof {
            assert(src@.subrange(0, i + 1) =~= src@.subrange(0, i as int).push(src@[i as int]));
        }
        i = i + 1;
    }
    proof {
        assert(src@.subrange(0, src@.len() as int) =~= src@);
    }
}

/// Copies `s[from..to]` into a fresh vector.
pub fn copy_range(s: &[u8], from: usize, to: usize) -> (r: Vec<u8>)
    requires
        from <= to <= s@.len(),
    ensures
        r@ == s@.subrange(from as int, to as int),
{
    let mut r: Vec<u8> = Vec::new();
    let mut i: usize = from;
    while i < to
        invariant
            from <= i <= to <= s@.len(),
            r@ == s@.subrange(from as int, i as int),
        decreases to - i,
    {
        r.push(s[i]);
        proof {
            assert(s@.subrange(from as int, i + 1) =~= s@.subrange(from as int, i as int).push(
                s@[i as int],
            ));
        }
        i = i + 1;
    }
    r
}

/// Copies a whole byte slice into a fresh vector.
pub fn copy_bytes(s: &[u8]) -> (r: Vec<u8>)
    ensures
        r@ == s@,
{
    let r = copy_range(s, 0, s.len());
    proof {
        assert(s@.subrange(0, s@.len() as int) =~= s@);
    }
    r
}

/// Whether two byte slices hold the same bytes.
pub fn bytes_eq(a: &[u8], b: &[u8]) -> (r: bool)
    ensures
        r <==> a@ == b@,
{
    if a.len() != b.len() {
        return false;
    }
    let mut i: usize = 0;
    while i < a.len()
        invariant
            0 <= i <= a@.len(),
            a@.len() == b@.len(),
            forall|j: int| 0 <= j < i ==> a@[j] == b@[j],
        decreases a.len() - i,
    {
        if a[i] != b[i] {
            return false;
        }
        i = i + 1;
    }
    proof {
        assert(a@ =~= b@);
    }
    true
}

/// Whether `s` ends with `suffix`.
pub fn ends_with(s: &[u8], suffix: &[u8]) -> (r: bool)
    ensures
        r <==> ends_with_bytes(s@, suffix@),
{
    if s.len() < suffix.len() {
        return false;
    }
    let n: usize = s.len();
    let start: usize = n - suffix.len();
    let mut i: usize = start;
    while i < n
        invariant
            start <= i <= n,
            n == s@.len(),
            start == s@.len() - suffix@.len(),
            forall|j: int| start <= j < i ==> s@[j] == suffix@[j - start],
        decreases n - i,
    {
        if s[i] != suffix[i - start] {
            assert(s@.subrange(start as int, s@.len() as int)[i - start] != suffix@[i - start]);
            return false;
        }
        i = i + 1;
    }
    proof {
        assert(s@.subrange(start as int, s@.len() as int) =~= suffix@);
    }
    true
}

/// Whether two byte slices are equal up to ASCII case.
pub fn eq_ignore_ascii(a: &[u8], b: &[u8]) -> (r: bool)
    ensures
        r <==> eq_ignore_case(a@, b@),
{
    if a.len() != b.len() {
        return false;
    }
    let mut i: usize = 0;
    while i < a.len()
        invariant
            0 <= i <= a@.len(),
            a@.len() == b@.len(),
            forall|j: int| 0 <= j < i ==> lower_byte(a@[j]) == lower_byte(b@[j]),
        decreases a.len() - i,
    {
        let x = a[i];
        let y = b[i];
        let xl: u8 = if 65 <= x && x <= 90 {
            x + 32
        } else {
            x
        };
        let yl: u8 = if 65 <= y && y <= 90 {
            y + 32
        } else {
            y
        };
        if xl != yl {
            return false;
        }
        i = i + 1;
    }
    true
}

/// Copies `s` without its surrounding ASCII whitespace.
pub fn trim(s: &[u8]) -> (r: Vec<u8>)
    ensures
        r@ == trim_bytes(s@),
{
    let n: usize = s.len();
    proof {
        assert(s@.skip(0) =~= s@);
    }
    let mut a: usize = 0;
    while a < n && (s[a] == SP || (9 <= s[a] && s[a] <= 13))
        invariant
            0 <= a <= n,
            n == s@.len(),
            trim_start(s@) == trim_start(s@.skip(a as int)),
        decreases n - a,
    {
        proof {
            assert(s@.skip(a as int).skip(1) =~= s@.skip(a + 1));
        }
        a = a + 1;
    }
    proof {
        if a < s@.len() {
            assert(trim_start(s@) == s@.skip(a as int));
        } else {
            assert(s@.skip(a as int) =~= Seq::<u8>::empty());
            assert(trim_start(s@) == s@.skip(a as int));
        }
    }
    let ghost t = s@.skip(a as int);
    proof {
        assert(t.take(t.len() as int) =~= t);
    }
    let mut end: usize = n;
    while end > a && (s[end - 1] == SP || (9 <= s[end - 1] && s[end - 1] <= 13))
        invariant
            a <= end <= n,
            n == s@.len(),
            t == s@.skip(a as int),
            trim_end(t) == trim_end(t.take(end - a)),
        decreases end,
    {
        proof {
            assert(t.take(end - a).last() == s@[end - 1]);
            assert(t.take(end - a).drop_last() =~= t.take(end - 1 - a));
        }
        end = end - 1;
    }
    proof {
        if end > a {
            assert(t.take(end - a).last() == s@[end - 1]);
            assert(trim_end(t.take(end - a)) == t.take(end - a));
        } else {
            assert(t.take(0) =~= Seq::<u8>::empty());
        }
        assert(t.take(end - a) =~= s@.subrange(a as int, end as int));
    }
    copy_range(s, a, end)
}

/// Where `last_index_of` points, the byte stands, and nothing matches after
/// it; where it finds nothing, the byte is absent.
pub proof fn lemma_last_index_of(s: Seq<u8>, b: u8)
    ensures
        match last_index_of(s, b) {
            Option::Some(i) => 0 <= i < s.len() && s[i] == b && forall|j: int|
                i < j < s.len() ==> s[j] != b,
            Option::None => forall|j: int| 0 <= j < s.len() ==> s[j] != b,
        },
    decreases s.len(),
{
    if s.len() > 0 && s.last() != b {
        let t = s.drop_last();
        lemma_last_index_of(t, b);
        match last_index_of(s, b) {
            Option::Some(i) => {
                assert forall|j: int| i < j < s.len() implies s[j] != b by {
                    if j < s.len() - 1 {
                        assert(t[j] != b);
                    }
                }
            },
            Option::None => {
                assert forall|j: int| 0 <= j < s.len() implies s[j] != b by {
                    if j < s.len() - 1 {
                        assert(t[j] != b);
                    }
                }
            },
        }
    }
}

/// Copies the suffix of `s` after the last occurrence of `b`; all of `s`
/// when `b` does not occur.
pub fn tail_after_last(s: &[u8], b: u8) -> (r: Vec<u8>)
    ensures
        r@ == (match last_index_of(s@, b) {
            Option::Some(i) => s@.skip(i + 1),
            Option::None => s@,
        }),
{
    let n: usize = s.len();
    proof {
        assert(s@.take(n as int) =~= s@);
    }
    let mut j: usize = n;
    while j > 0 && s[j - 1] != b
        invariant
            0 <= j <= n,
            n == s@.len(),
            last_index_of(s@, b) == last_index_of(s@.take(j as int), b),
            forall|k: int| j <= k < n ==> s@[k] != b,
        decreases j,
    {
        proof {
            assert(s@.take(j as int).last() == s@[j - 1]);
            assert(s@.take(j as int).drop_last() =~= s@.take(j - 1));
        }
        j = j - 1;
    }
    if j > 0 {
        proof {
            assert(s@.take(j as int).last() == s@[j - 1]);
            assert(last_index_of(s@, b) == Option::Some(j - 1));
            assert(s@.subrange(j as int, n as int) =~= s@.skip(j as int));
        }
        copy_range(s, j, n)
    } else {
        proof {
            assert(s@.take(0) =~= Seq::<u8>::empty());
            assert(last_index_of(s@, b) == Option::<int>::None);
            assert(s@.subrange(0, n as int) =~= s@);
        }
        copy_range(s, 0, n)
    }
}

/// Parses an ASCII decimal number, with an optional leading `+`, rejecting
/// anything else and any value that does not fit in `usize`.
#[verifier::rlimit(60)]
pub fn parse_usize(s: &[u8]) -> (r: Option<usize>)
    ensures
        match spec_parse_usize(s@) {
            Option::Some(v) => r == Option::Some(v as usize),
            Option::None => r == Option::<usize>::None,
        },
{
    let start: usize = if s.len() > 0 && s[0] == PLUS {
        1
    } else {
        0
    };
    let ghost t = if s@.len() > 0 && s@[0] == PLUS {
        s@.skip(1)
    } else {
        s@
    };
    proof {
        assert(t =~= s@.subrange(start as int, s@.len() as int));
    }
    if s.len() == start {
        return None;
    }
    let n: usize = s.len();
    proof {
        assert(t.skip(0) =~= t);
    }
    let mut acc: usize = 0;
    let mut i: usize = start;
    while i < n
        invariant
            start <= i <= n,
            start < n,
            start <= 1,
            n == s@.len(),
            t == (if s@.len() > 0 && s@[0] == PLUS {
                s@.skip(1)
            } else {
                s@
            }),
            t == s@.subrange(start as int, s@.len() as int),
            forall|j: int| 0 <= j < i - start ==> is_digit(t[j]),
            digits_val_acc(t, 0) == digits_val_acc(t.skip(i - start), acc as nat),
        decreases n - i,
    {
        let b = s[i];
        if !(48 <= b && b <= 57) {
            proof {
                assert(t[i - start] == b);
                assert(!all_digits(t));
            }
            return None;
        }
        let d: usize = (b - 48) as usize;
        proof {
            assert(t.skip(i - start)[0] == b);
            assert(t.skip(i - start).skip(1) =~= t.skip(i - start + 1));
            assert(digits_val_acc(t.skip(i - start), acc as nat) == digits_val_acc(
                t.skip(i - start + 1),
                acc as nat * 10 + digit_val(b),
            ));
        }
        let overflowed: bool = match acc.checked_mul(10) {
            Some(p) => match p.checked_add(d) {
                Some(next) => {
                    acc = next;
                    false
                },
                None => true,
            },
            None => true,
        };
        if overflowed {
            proof {
                lemma_digits_val_acc_ge(t.skip(i - start + 1), acc as nat * 10 + digit_val(b));
                assert(digits_val_acc(t, 0) > usize::MAX);
            }
            return None;
        }
        i = i + 1;
    }
    proof {
        assert(t.skip(t.len() as int) =~= Seq::<u8>::empty());
        assert(forall|j: int| 0 <= j < t.len() ==> is_digit(t[j]));
        assert(digits_val_acc(t, 0) == acc as nat);
    }
    Some(acc)
}

/// Renders `n` in decimal, most significant digit first.
pub fn decimal_bytes(n: usize) -> (r: Vec<u8>)
    ensures
        r@ == dec_digits(n as nat),
    decreases n,
{
    if n < 10 {
        let mut r: Vec<u8> = Vec::new();
        r.push(48 + n as u8);
        r
    } else {
        proof {
            assert(n / 10 < n) by (nonlinear_arith)
                requires
                    n >= 10,
            ;
        }
        let mut r = decimal_bytes(n / 10);
        r.push(48 + (n % 10) as u8);
        r
    }
}

} // verus!
