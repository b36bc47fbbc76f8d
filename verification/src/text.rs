use vstd::prelude::*;

verus! {

/// The pieces of `s` between the occurrences of `sep`. There is always one
/// piece more than there are separators, so the empty text has one piece.
pub open spec fn split(s: Seq<char>, sep: char) -> Seq<Seq<char>>
    decreases s.len(),
{
    if s.len() == 0 {
        seq![Seq::<char>::empty()]
    } else {
        let front = split(s.drop_last(), sep);
        if s.last() == sep {
            front.push(Seq::<char>::empty())
        } else {
            front.drop_last().push(front.last().push(s.last()))
        }
    }
}

/// `pieces` put together again, with `sep` between each two.
pub open spec fn join(pieces: Seq<Seq<char>>, sep: char) -> Seq<char>
    decreases pieces.len(),
{
    if pieces.len() == 0 {
        Seq::<char>::empty()
    } else if pieces.len() == 1 {
        pieces[0]
    } else {
        join(pieces.drop_last(), sep).push(sep) + pieces.last()
    }
}

/// Splitting loses nothing: no piece holds a separator, and the pieces joined
/// by the separator are the text again.
pub proof fn lemma_split_join(s: Seq<char>, sep: char)
    ensures
        split(s, sep).len() >= 1,
        forall|k: int, i: int|
            0 <= k < split(s, sep).len() && 0 <= i < split(s, sep)[k].len() ==> split(
                s,
                sep,
            )[k][i] != sep,
        join(split(s, sep), sep) == s,
    decreases s.len(),
{
    if s.len() > 0 {
        let front = split(s.drop_last(), sep);
        lemma_split_join(s.drop_last(), sep);
        let whole = split(s, sep);
        if s.last() == sep {
            assert(whole.drop_last() =~= front);
        } else if front.len() > 1 {
            assert(whole.drop_last() =~= front.drop_last());
            assert(join(whole, sep) =~= join(front, sep).push(s.last()));
        }
    }
}

/// A stretch of a text: the characters from `start` up to, not including, `end`.
#[derive(Clone, Copy)]
pub struct Piece {
    pub start: usize,
    pub end: usize,
}

/// Finds the pieces of `chars[from..to]` between the occurrences of `sep`.
pub fn split_pieces(chars: &Vec<char>, sep: char, from: usize, to: usize) -> (pieces: Vec<Piece>)
    requires
        from <= to <= chars@.len(),
    ensures
        pieces@.len() == split(chars@.subrange(from as int, to as int), sep).len(),
        forall|k: int|
            0 <= k < pieces@.len() ==> from <= (#[trigger] pieces@[k]).start <= pieces@[k].end
                <= to,
        forall|k: int|
            0 <= k < pieces@.len() ==> chars@.subrange(
                (#[trigger] pieces@[k]).start as int,
                pieces@[k].end as int,
            ) == split(chars@.subrange(from as int, to as int), sep)[k],
{
    let mut pieces: Vec<Piece> = Vec::new();
    let mut start: usize = from;
    let mut i: usize = from;
    while i < to
        invariant
            from <= start <= i <= to <= chars@.len(),
            split(chars@.subrange(from as int, i as int), sep).len() == pieces@.len() + 1,
            forall|k: int|
                0 <= k < pieces@.len() ==> from <= (#[trigger] pieces@[k]).start <= pieces@[k].end
                    <= i,
            forall|k: int|
                0 <= k < pieces@.len() ==> chars@.subrange(
                    (#[trigger] pieces@[k]).start as int,
                    pieces@[k].end as int,
                ) == split(chars@.subrange(from as int, i as int), sep)[k],
            split(chars@.subrange(from as int, i as int), sep).last() == chars@.subrange(
                start as int,
                i as int,
            ),
        decreases to - i,
    {
        proof {
            let seen = chars@.subrange(from as int, i as int);
            let next = chars@.subrange(from as int, i + 1);
            assert(next.drop_last() =~= seen);
        }
        if chars[i] == sep {
            pieces.push(Piece { start, end: i });
            start = i + 1;
        }
        i += 1;
    }
    pieces.push(Piece { start, end: to });
    pieces
}

/// Whether `c` is one of the ten decimal digits.
pub open spec fn is_digit(c: char) -> bool {
    '0' <= c <= '9'
}

/// The number that the decimal digits `digits` write.
pub open spec fn decimal_value(digits: Seq<char>) -> int
    decreases digits.len(),
{
    if digits.len() == 0 {
        0
    } else {
        decimal_value(digits.drop_last()) * 10 + (digits.last() as int - '0' as int)
    }
}

/// Whether every character of `s` is a decimal digit.
pub open spec fn all_digits(s: Seq<char>) -> bool {
    forall|i: int| 0 <= i < s.len() ==> is_digit(#[trigger] s[i])
}

/// Whether `s` begins with a sign.
pub open spec fn has_sign(s: Seq<char>) -> bool {
    s.len() > 0 && (s[0] == '-' || s[0] == '+')
}

/// `s` without its sign, if it has one.
pub open spec fn unsigned_part(s: Seq<char>) -> Seq<char> {
    if has_sign(s) {
        s.subrange(1, s.len() as int)
    } else {
        s
    }
}

/// The integer that `s` writes in base ten: an optional `+` or `-`, then at
/// least one digit, and nothing else.
pub open spec fn signed_value(s: Seq<char>) -> Option<int> {
    let digits = unsigned_part(s);
    if digits.len() > 0 && all_digits(digits) {
        if s[0] == '-' {
            Some(-decimal_value(digits))
        } else {
            Some(decimal_value(digits))
        }
    } else {
        None
    }
}

/// The `i64` that `s` writes in base ten, if it writes one.
pub open spec fn parse_i64(s: Seq<char>) -> Option<i64> {
    match signed_value(s) {
        Some(v) => if i64::MIN <= v <= i64::MAX {
            Some(v as i64)
        } else {
            None
        },
        None => None,
    }
}

proof fn lemma_decimal_grows(digits: Seq<char>, n: int)
    requires
        0 <= n <= digits.len(),
        all_digits(digits),
    ensures
        0 <= decimal_value(digits.take(n)) <= decimal_value(digits),
    decreases digits.len() - n,
{
    if n == digits.len() {
        assert(digits.take(n) =~= digits);
        lemma_decimal_nonnegative(digits);
    } else {
        lemma_decimal_grows(digits, n + 1);
        assert(digits.take(n + 1).drop_last() =~= digits.take(n));
        lemma_decimal_nonnegative(digits.take(n));
    }
}

proof fn lemma_decimal_nonnegative(digits: Seq<char>)
    requires
        all_digits(digits),
    ensures
        0 <= decimal_value(digits),
    decreases digits.len(),
{
    if digits.len() > 0 {
        lemma_decimal_nonnegative(digits.drop_last());
    }
}

/// Reads `chars[from..to]` as a base-ten `i64`.
pub fn read_i64(chars: &Vec<char>, from: usize, to: usize) -> (value: Option<i64>)
    requires
        from <= to <= chars@.len(),
    ensures
        value == parse_i64(chars@.subrange(from as int, to as int)),
{
    let ghost s = chars@.subrange(from as int, to as int);
    if from == to {
        return None;
    }
    let negative = chars[from] == '-';
    let first: usize = if negative || chars[from] == '+' {
        from + 1
    } else {
        from
    };
    let ghost digits = chars@.subrange(first as int, to as int);
    proof {
        assert(digits =~= unsigned_part(s));
    }
    if first == to {
        return None;
    }
    let mut magnitude: i128 = 0;
    let mut i: usize = first;
    while i < to
        invariant
            from <= first <= i <= to <= chars@.len(),
            s == chars@.subrange(from as int, to as int),
            s.len() > 0,
            negative == (s[0] == '-'),
            digits == unsigned_part(s),
            digits == chars@.subrange(first as int, to as int),
            forall|k: int| 0 <= k < i - first ==> is_digit(#[trigger] digits[k]),
            magnitude == decimal_value(digits.take(i - first)),
            0 <= magnitude <= 0x8000_0000_0000_0000,
        decreases to - i,
    {
        let c = chars[i];
        if c < '0' || c > '9' {
            assert(!is_digit(digits[i - first]));
            return None;
        }
        let digit: i128 = (c as u32 - '0' as u32) as i128;
        proof {
            let longer = digits.take(i - first + 1);
            assert(longer.drop_last() =~= digits.take(i - first));
        }
        magnitude = magnitude * 10 + digit;
        if magnitude > 0x8000_0000_0000_0000 {
            proof {
                if all_digits(digits) {
                    lemma_decimal_grows(digits, i - first + 1);
                }
            }
            return None;
        }
        i += 1;
    }
    proof {
        assert(digits.take(to - first) =~= digits);
    }
    if negative {
        Some((-magnitude) as i64)
    } else if magnitude <= 0x7fff_ffff_ffff_ffff {
        Some(magnitude as i64)
    } else {
        None
    }
}

/// The characters of `s`, in order.
pub fn chars_of(s: &str) -> (v: Vec<char>)
    ensures
        v@ == s@,
{
    let mut v: Vec<char> = Vec::new();
    for c in it: s.chars()
        invariant
            it.seq() == s@,
            v@ == it.seq().take(it.index() as int),
    {
        v.push(c);
    }
    v
}

} // verus!
