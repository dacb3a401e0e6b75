//! Building text: decimal and hexadecimal numbers, repeated characters, and the
//! split of a text into lines.

use vstd::prelude::*;
use vstd::string::StrSliceExecFns;
use vstd::string::StringExecFns;

verus! {

/// The decimal digit for `d`.
pub open spec fn digit_char(d: nat) -> char {
    seq!['0', '1', '2', '3', '4', '5', '6', '7', '8', '9'][d as int]
}

/// The decimal notation of `n`, without leading zeros.
pub open spec fn decimal(n: nat) -> Seq<char>
    decreases n,
{
    if n < 10 {
        seq![digit_char(n)]
    } else {
        decimal(n / 10) + seq![digit_char(n % 10)]
    }
}

/// The number of digits of `n` in decimal.
pub open spec fn decimal_len(n: nat) -> nat {
    decimal(n).len()
}

/// `n` copies of `c`.
pub open spec fn repeat(c: char, n: nat) -> Seq<char> {
    Seq::new(n, |i: int| c)
}

/// The upper-case hexadecimal digit for `d`.
pub open spec fn hex_char(d: nat) -> char {
    seq!['0', '1', '2', '3', '4', '5', '6', '7', '8', '9', 'A', 'B', 'C', 'D', 'E', 'F'][d as int]
}

/// A byte as two upper-case hexadecimal digits.
pub open spec fn hex_byte(b: u8) -> Seq<char> {
    seq![hex_char((b / 16) as nat), hex_char((b % 16) as nat)]
}

/// The bytes in the list notation `[0A, FF]`.
pub open spec fn hex_list(bytes: Seq<u8>) -> Seq<char> {
    seq!['['] + hex_items(bytes) + seq![']']
}

/// The bytes as two-digit hexadecimal numbers separated by `", "`.
pub open spec fn hex_items(bytes: Seq<u8>) -> Seq<char>
    decreases bytes.len(),
{
    if bytes.len() == 0 {
        Seq::empty()
    } else if bytes.len() == 1 {
        hex_byte(bytes[0])
    } else {
        hex_items(bytes.drop_last()) + seq![',', ' '] + hex_byte(bytes.last())
    }
}

/// Appends the decimal notation of `n`.
pub fn push_decimal(out: &mut String, n: u64)
    ensures
        final(out)@ == old(out)@ + decimal(n as nat),
    decreases n,
{
    if n >= 10 {
        push_decimal(out, n / 10);
    }
    let digits = "0123456789";
    proof {
        reveal_strlit("0123456789");
    }
    let d: usize = (n % 10) as usize;
    let s = digits.substring_char(d, d + 1);
    assert(s@ =~= seq![digit_char(d as nat)]);
    out.append(s);
}

/// The decimal notation of `n`.
pub fn decimal_string(n: u64) -> (res: String)
    ensures
        res@ == decimal(n as nat),
{
    let mut out = String::new();
    push_decimal(&mut out, n);
    assert(out@ =~= decimal(n as nat));
    out
}

/// Appends `n` copies of the one-character text `c`.
pub fn push_repeated(out: &mut String, c: &str, n: u64)
    requires
        c@.len() == 1,
    ensures
        final(out)@ == old(out)@ + repeat(c@[0], n as nat),
{
    let mut i: u64 = 0;
    while i < n
        invariant
            i <= n,
            c@.len() == 1,
            out@ == old(out)@ + repeat(c@[0], i as nat),
        decreases n - i,
    {
        let ghost before = out@;
        out.append(c);
        i = i + 1;
        assert(out@ =~= old(out)@ + repeat(c@[0], i as nat));
    }
}

/// Appends `b` as two upper-case hexadecimal digits.
fn push_hex_byte(out: &mut String, b: u8)
    ensures
        final(out)@ == old(out)@ + hex_byte(b),
{
    let digits = "0123456789ABCDEF";
    proof {
        reveal_strlit("0123456789ABCDEF");
    }
    let hi: usize = (b / 16) as usize;
    let lo: usize = (b % 16) as usize;
    let h = digits.substring_char(hi, hi + 1);
    assert(h@ =~= seq![hex_char(hi as nat)]);
    out.append(h);
    let l = digits.substring_char(lo, lo + 1);
    assert(l@ =~= seq![hex_char(lo as nat)]);
    out.append(l);
    assert(out@ =~= old(out)@ + hex_byte(b));
}

/// Appends the bytes in the list notation `[0A, FF]`.
pub fn push_hex_list(out: &mut String, bytes: &[u8])
    ensures
        final(out)@ == old(out)@ + hex_list(bytes@),
{
    let open = "[";
    let sep = ", ";
    let close = "]";
    proof {
        reveal_strlit("[");
        reveal_strlit(", ");
        reveal_strlit("]");
    }
    out.append(open);
    let ghost start = out@;
    let mut i: usize = 0;
    while i < bytes.len()
        invariant
            i <= bytes@.len(),
            sep@ == seq![',', ' '],
            out@ == start + hex_items(bytes@.take(i as int)),
        decreases bytes@.len() - i,
    {
        if i > 0 {
            out.append(sep);
        }
        push_hex_byte(out, bytes[i]);
        proof {
            let t = bytes@.take(i + 1);
            assert(t.drop_last() =~= bytes@.take(i as int));
            assert(t.last() == bytes@[i as int]);
            if i == 0 {
                assert(bytes@.take(0) =~= Seq::<u8>::empty());
            }
        }
        i = i + 1;
    }
    assert(bytes@.take(bytes@.len() as int) =~= bytes@);
    out.append(close);
    assert(out@ =~= old(out)@ + hex_list(bytes@));
}

/// The characters of a text.
pub fn chars_of(s: &str) -> (res: Vec<char>)
    ensures
        res@ == s@,
{
    let mut res: Vec<char> = Vec::new();
    for c in it: s.chars()
        invariant
            res@ == it.seq().take(it.index()),
    {
        res.push(c);
    }
    res
}

/// The position of the first line feed at or after `i`, or the end of `s`.
pub open spec fn line_end(s: Seq<char>, i: int) -> int
    decreases s.len() - i,
{
    if i < 0 || i >= s.len() {
        s.len() as int
    } else if s[i] == '\n' {
        i
    } else {
        line_end(s, i + 1)
    }
}

/// The text of the line that starts at `i` and ends at `e`: a carriage return just
/// before the line feed is not part of it.
pub open spec fn line_text(s: Seq<char>, i: int, e: int) -> Seq<char> {
    if e < s.len() && e > i && s[e - 1] == '\r' {
        s.subrange(i, e - 1)
    } else {
        s.subrange(i, e)
    }
}

/// A line ends at a line feed or at the end of the text, not before it starts.
pub proof fn lemma_line_end(s: Seq<char>, i: int)
    requires
        0 <= i <= s.len(),
    ensures
        i <= line_end(s, i) <= s.len(),
        line_end(s, i) < s.len() ==> s[line_end(s, i)] == '\n',
    decreases s.len() - i,
{
    if i < s.len() && s[i] != '\n' {
        lemma_line_end(s, i + 1);
    }
}

/// The lines of `s` from position `i` on.
pub open spec fn lines_from(s: Seq<char>, i: int) -> Seq<Seq<char>>
    decreases s.len() - i,
    via lines_from_decreases
{
    if i < 0 || i >= s.len() {
        Seq::empty()
    } else {
        let e = line_end(s, i);
        if e < s.len() {
            seq![line_text(s, i, e)] + lines_from(s, e + 1)
        } else {
            seq![line_text(s, i, e)]
        }
    }
}

#[via_fn]
proof fn lines_from_decreases(s: Seq<char>, i: int) {
    if 0 <= i < s.len() {
        lemma_line_end(s, i);
    }
}

/// The lines of a text: it is split after each line feed, the line feed and a
/// carriage return just before it are dropped, and a line feed at the very end
/// starts no further line.
pub open spec fn text_lines(s: Seq<char>) -> Seq<Seq<char>> {
    lines_from(s, 0)
}

/// Where each line of a text starts and ends, as character positions.
pub fn line_spans(chars: &Vec<char>) -> (res: Vec<(usize, usize)>)
    ensures
        res@.len() == text_lines(chars@).len(),
        forall|k: int| 0 <= k < res@.len() ==> {
            &&& (#[trigger] res@[k]).0 <= res@[k].1 <= chars@.len()
            &&& chars@.subrange(res@[k].0 as int, res@[k].1 as int) == text_lines(chars@)[k]
        },
{
    let ghost s = chars@;
    let n = chars.len();
    let mut res: Vec<(usize, usize)> = Vec::new();
    let ghost mut done: Seq<Seq<char>> = Seq::empty();
    let mut i: usize = 0;
    while i < n
        invariant
            n == s.len(),
            s == chars@,
            i <= n,
            done.len() == res@.len(),
            forall|k: int| 0 <= k < res@.len() ==> {
                &&& (#[trigger] res@[k]).0 <= res@[k].1 <= s.len()
                &&& s.subrange(res@[k].0 as int, res@[k].1 as int) == done[k]
            },
            text_lines(s) == done + lines_from(s, i as int),
        decreases n - i,
    {
        let mut e: usize = i;
        while e < n && chars[e] != '\n'
            invariant
                n == s.len(),
                s == chars@,
                i <= e <= n,
                i < n,
                line_end(s, i as int) == line_end(s, e as int),
            decreases n - e,
        {
            e = e + 1;
        }
        proof {
            lemma_line_end(s, i as int);
        }
        let stop: usize = if e < n && e > i && chars[e - 1] == '\r' { e - 1 } else { e };
        res.push((i, stop));
        proof {
            let t = line_text(s, i as int, e as int);
            assert(lines_from(s, i as int) == seq![t] + lines_from(s, e + 1)) by {
                if e == n {
                    assert(lines_from(s, e + 1) =~= Seq::<Seq<char>>::empty());
                    assert(seq![t] + lines_from(s, e + 1) =~= seq![t]);
                }
            }
            assert(lines_from(s, n as int) =~= lines_from(s, n + 1));
            assert(s.subrange(i as int, stop as int) == t);
            let d2 = done.push(t);
            assert(done + lines_from(s, i as int) =~= d2 + lines_from(s, e + 1));
            done = d2;
        }
        if e < n {
            i = e + 1;
        } else {
            i = n;
        }
    }
    proof {
        assert(lines_from(s, i as int) =~= Seq::<Seq<char>>::empty());
        assert(done + lines_from(s, i as int) =~= done);
    }
    res
}

/// A signed number in decimal, with a minus sign when negative.
pub open spec fn signed_decimal(n: int) -> Seq<char> {
    if n < 0 { seq!['-'] + decimal((-n) as nat) } else { decimal(n as nat) }
}

/// Appends the decimal notation of `n`, with a minus sign when negative.
pub fn push_signed_decimal(out: &mut String, n: i64)
    ensures
        final(out)@ == old(out)@ + signed_decimal(n as int),
{
    if n < 0 {
        let minus = "-";
        proof { reveal_strlit("-"); }
        out.append(minus);
        let magnitude: u64 = if n == i64::MIN { 9223372036854775808u64 } else { (-n) as u64 };
        push_decimal(out, magnitude);
        assert(out@ =~= old(out)@ + signed_decimal(n as int));
    } else {
        push_decimal(out, n as u64);
    }
}

/// `char::to_string`: the text made of the one character.
#[verifier::external_body]
pub(crate) fn char_text(c: char) -> (res: String)
    ensures
        res@ == seq![c],
{
    c.to_string()
}

/// The texts of some strings.
pub open spec fn string_texts(v: Seq<String>) -> Seq<Seq<char>> {
    v.map_values(|s: String| s@)
}

} // verus!
