//! The text form of an edge: a line whose first two whitespace-separated
//! tokens that are decimal numbers name the two ends.

use vstd::prelude::*;

verus! {

/// The length in bytes of the whitespace character that starts at `i` of the
/// UTF-8 text `s`, and 0 where none starts there. Whitespace is what Unicode
/// calls so: tab to carriage return, space, U+0085, U+00A0, U+1680, U+2000
/// to U+200A, U+2028, U+2029, U+202F, U+205F and U+3000.
pub open spec fn space_len(s: Seq<u8>, i: int) -> nat {
    let a = s[i];
    if a == 0x20 || 0x09 <= a <= 0x0d {
        1
    } else if i + 1 < s.len() && a == 0xc2 && (s[i + 1] == 0x85 || s[i + 1] == 0xa0) {
        2
    } else if i + 2 < s.len() && a == 0xe1 && s[i + 1] == 0x9a && s[i + 2] == 0x80 {
        3
    } else if i + 2 < s.len() && a == 0xe2 && s[i + 1] == 0x80 && (0x80 <= s[i + 2] <= 0x8a
        || s[i + 2] == 0xa8 || s[i + 2] == 0xa9 || s[i + 2] == 0xaf) {
        3
    } else if i + 2 < s.len() && a == 0xe2 && s[i + 1] == 0x81 && s[i + 2] == 0x9f {
        3
    } else if i + 2 < s.len() && a == 0xe3 && s[i + 1] == 0x80 && s[i + 2] == 0x80 {
        3
    } else {
        0
    }
}

/// The number of bytes from `i` to the next whitespace or the end of the
/// text: the length of the token that starts at `i`.
pub open spec fn token_len(s: Seq<u8>, i: int) -> nat
    decreases s.len() - i,
{
    if i < 0 || i >= s.len() || space_len(s, i) > 0 {
        0
    } else {
        1 + token_len(s, i + 1)
    }
}

/// The byte is a decimal digit.
pub open spec fn is_digit(b: u8) -> bool {
    0x30 <= b <= 0x39
}

/// The number that the decimal digits `t` write.
pub open spec fn decimal(t: Seq<u8>) -> nat
    decreases t.len(),
{
    if t.len() == 0 {
        0
    } else {
        decimal(t.drop_last()) * 10 + (t.last() - 0x30) as nat
    }
}

/// The token without a plus sign in front.
pub open spec fn unsigned_part(t: Seq<u8>) -> Seq<u8> {
    if t.len() > 0 && t[0] == 0x2b {
        t.subrange(1, t.len() as int)
    } else {
        t
    }
}

/// The number that the token `t` writes: one or more decimal digits, with or
/// without a plus sign in front, whose value fits the machine word. Any
/// other token writes none.
pub open spec fn number_value(t: Seq<u8>) -> Option<usize> {
    let body = unsigned_part(t);
    if body.len() > 0 && (forall|i: int| 0 <= i < body.len() ==> is_digit(#[trigger] body[i]))
        && decimal(body) <= usize::MAX {
        Some(decimal(body) as usize)
    } else {
        None
    }
}

/// A token ends within the text, and after its start.
pub proof fn lemma_token_len_bounds(s: Seq<u8>, i: int)
    requires
        0 <= i <= s.len(),
    ensures
        i + token_len(s, i) <= s.len(),
        i < s.len() && space_len(s, i) == 0 ==> token_len(s, i) > 0,
    decreases s.len() - i,
{
    if i < s.len() && space_len(s, i) == 0 {
        lemma_token_len_bounds(s, i + 1);
    }
}

/// The first `want` numbers among the tokens of `s` from `i` on.
pub open spec fn numbers_from(s: Seq<u8>, i: int, want: nat) -> Seq<usize>
    decreases s.len() - i,
    via numbers_from_ends
{
    if want == 0 || i < 0 || i >= s.len() {
        Seq::empty()
    } else if space_len(s, i) > 0 {
        numbers_from(s, i + space_len(s, i), want)
    } else {
        match number_value(s.subrange(i, i + token_len(s, i))) {
            Some(v) => seq![v] + numbers_from(s, i + token_len(s, i), (want - 1) as nat),
            None => numbers_from(s, i + token_len(s, i), want),
        }
    }
}

#[via_fn]
proof fn numbers_from_ends(s: Seq<u8>, i: int, want: nat) {
    if 0 <= i < s.len() {
        lemma_token_len_bounds(s, i);
    }
}

/// The edge that the line `s` gives: its first two tokens that are numbers,
/// and none where it has fewer than two.
pub open spec fn edge_of_line(s: Seq<u8>) -> Option<(usize, usize)> {
    let found = numbers_from(s, 0, 2);
    if found.len() == 2 {
        Some((found[0], found[1]))
    } else {
        None
    }
}

/// A number grows with every digit that is appended.
proof fn lemma_decimal_grows(t: Seq<u8>, k: int)
    requires
        0 <= k <= t.len(),
        forall|i: int| 0 <= i < t.len() ==> is_digit(#[trigger] t[i]),
    ensures
        decimal(t.take(k)) <= decimal(t),
    decreases t.len() - k,
{
    if k < t.len() {
        lemma_decimal_grows(t, k + 1);
        assert(t.take(k + 1).drop_last() =~= t.take(k));
    } else {
        assert(t.take(k) =~= t);
    }
}

/// The length of the whitespace character at `i`, 0 where none starts there.
fn space_at(s: &[u8], i: usize) -> (w: usize)
    requires
        i < s.len(),
    ensures
        w == space_len(s@, i as int),
        i + w <= s.len(),
        w <= 3,
{
    let a = s[i];
    let n = s.len();
    if a == 0x20 || (0x09 <= a && a <= 0x0d) {
        1
    } else if n - i > 1 && a == 0xc2 && (s[i + 1] == 0x85 || s[i + 1] == 0xa0) {
        2
    } else if n - i > 2 && a == 0xe1 && s[i + 1] == 0x9a && s[i + 2] == 0x80 {
        3
    } else if n - i > 2 && a == 0xe2 && s[i + 1] == 0x80 && ((0x80 <= s[i + 2] && s[i + 2] <= 0x8a)
        || s[i + 2] == 0xa8 || s[i + 2] == 0xa9 || s[i + 2] == 0xaf) {
        3
    } else if n - i > 2 && a == 0xe2 && s[i + 1] == 0x81 && s[i + 2] == 0x9f {
        3
    } else if n - i > 2 && a == 0xe3 && s[i + 1] == 0x80 && s[i + 2] == 0x80 {
        3
    } else {
        0
    }
}

/// The number that the token `s[from .. to]` writes, if it writes one.
fn parse_number(s: &[u8], from: usize, to: usize) -> (r: Option<usize>)
    requires
        from <= to <= s.len(),
    ensures
        r == number_value(s@.subrange(from as int, to as int)),
{
    let ghost token = s@.subrange(from as int, to as int);
    let start = if from < to && s[from] == 0x2b {
        from + 1
    } else {
        from
    };
    let ghost body = unsigned_part(token);
    assert(body =~= s@.subrange(start as int, to as int));
    if start == to {
        return None;
    }
    let mut value: usize = 0;
    let mut k: usize = start;
    assert(body.take(0) =~= Seq::<u8>::empty());
    while k < to
        invariant
            start <= k <= to,
            to <= s.len(),
            from <= start,
            body == s@.subrange(start as int, to as int),
            body == unsigned_part(s@.subrange(from as int, to as int)),
            forall|i: int| 0 <= i < k - start ==> is_digit(#[trigger] body[i]),
            value == decimal(body.take(k - start)),
        decreases to - k,
    {
        let b = s[k];
        if b < 0x30 || b > 0x39 {
            assert(!is_digit(body[k - start]));
            return None;
        }
        let digit = (b - 0x30) as usize;
        proof {
            assert(body.take(k - start + 1).drop_last() =~= body.take(k - start));
            assert(body.take(k - start + 1).last() == b);
        }
        if value > (usize::MAX - digit) / 10 {
            proof {
                let longer = decimal(body.take(k - start + 1));
                assert(longer > usize::MAX);
                if forall|i: int| 0 <= i < body.len() ==> is_digit(#[trigger] body[i]) {
                    lemma_decimal_grows(body, k - start + 1);
                }
            }
            return None;
        }
        value = value * 10 + digit;
        k += 1;
    }
    assert(body.take(k - start) =~= body);
    Some(value)
}

/// Reads an edge from a line of text. The line is split at whitespace; its
/// first two tokens that are decimal numbers fitting the machine word are
/// the two ends, in this order. A line with fewer than two such tokens
/// gives no edge.
pub fn parse_edge_line(line: &[u8]) -> (r: Option<(usize, usize)>)
    ensures
        r == edge_of_line(line@),
{
    let ghost s = line@;
    let n = line.len();
    let mut first: Option<usize> = None;
    let mut i: usize = 0;
    while i < n
        invariant
            i <= n,
            n == line.len(),
            s == line@,
            match first {
                None => numbers_from(s, 0, 2) == numbers_from(s, i as int, 2),
                Some(a) => numbers_from(s, 0, 2) == seq![a] + numbers_from(s, i as int, 1),
            },
        decreases n - i,
    {
        let w = space_at(line, i);
        if w > 0 {
            i = i + w;
        } else {
            let mut e: usize = i + 1;
            while e < n && space_at(line, e) == 0
                invariant
                    i < e <= n,
                    n == line.len(),
                    s == line@,
                    e + token_len(s, e as int) == i + token_len(s, i as int),
                decreases n - e,
            {
                e += 1;
            }
            assert(i + token_len(s, i as int) == e);
            match parse_number(line, i, e) {
                Some(v) => {
                    match first {
                        None => {
                            first = Some(v);
                        },
                        Some(a) => {
                            proof {
                                let rest = numbers_from(s, e as int, 0);
                                assert(rest =~= Seq::<usize>::empty());
                                assert(numbers_from(s, 0, 2) =~= seq![a, v]);
                            }
                            return Some((a, v));
                        },
                    }
                },
                None => {},
            }
            i = e;
        }
    }
    proof {
        match first {
            None => {
                assert(numbers_from(s, 0, 2).len() == 0);
            },
            Some(a) => {
                assert(numbers_from(s, 0, 2).len() == 1);
            },
        }
    }
    None
}

} // verus!
