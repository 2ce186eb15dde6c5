//! Text forms used by the durable table and by cache file names: decimal
//! numbers and comma-joined lists of handles.

use vstd::prelude::*;
use vstd::std_specs::iter::IteratorSpec;
use vstd::string::*;

verus! {

/// Whether `c` is one of `0` to `9`.
pub open spec fn is_digit(c: char) -> bool {
    '0' <= c && c <= '9'
}

/// The number that the digit `c` stands for.
pub open spec fn digit_value(c: char) -> nat {
    (c as u32 - '0' as u32) as nat
}

/// The digit that stands for `d`, for `d` below ten.
pub open spec fn digit_char(d: nat) -> char {
    ((48 + d) as u8) as char
}

/// The decimal form of `n`: no sign, no leading zero but for zero itself.
pub open spec fn decimal(n: nat) -> Seq<char>
    decreases n,
{
    if n < 10 {
        seq![digit_char(n)]
    } else {
        decimal(n / 10).push(digit_char(n % 10))
    }
}

/// The one-character text of a digit.
fn digit_text(d: u32) -> (s: &'static str)
    requires
        d < 10,
    ensures
        s@ == seq![digit_char(d as nat)],
{
    proof {
        reveal_strlit("0");
        reveal_strlit("1");
        reveal_strlit("2");
        reveal_strlit("3");
        reveal_strlit("4");
        reveal_strlit("5");
        reveal_strlit("6");
        reveal_strlit("7");
        reveal_strlit("8");
        reveal_strlit("9");
    }
    let s = if d == 0 {
        "0"
    } else if d == 1 {
        "1"
    } else if d == 2 {
        "2"
    } else if d == 3 {
        "3"
    } else if d == 4 {
        "4"
    } else if d == 5 {
        "5"
    } else if d == 6 {
        "6"
    } else if d == 7 {
        "7"
    } else if d == 8 {
        "8"
    } else {
        "9"
    };
    assert(s@ =~= seq![digit_char(d as nat)]);
    s
}

/// Writes `n` in decimal.
pub fn decimal_string(n: u32) -> (s: String)
    ensures
        s@ == decimal(n as nat),
    decreases n,
{
    if n < 10 {
        String::from_str(digit_text(n))
    } else {
        let mut s = decimal_string(n / 10);
        s.append(digit_text(n % 10));
        assert(s@ =~= decimal(n as nat));
        s
    }
}

/// Whether every character of `s` is a digit.
pub open spec fn is_digits(s: Seq<char>) -> bool {
    forall|i: int| 0 <= i < s.len() ==> is_digit(#[trigger] s[i])
}

/// The number that a run of digits stands for, most significant digit first.
pub open spec fn digits_value(s: Seq<char>) -> nat
    decreases s.len(),
{
    if s.len() == 0 {
        0
    } else {
        digits_value(s.drop_last()) * 10 + digit_value(s.last())
    }
}

/// A text without its leading `+`, if it has one.
pub open spec fn unsigned_part(s: Seq<char>) -> Seq<char> {
    if s.len() > 0 && s[0] == '+' {
        s.subrange(1, s.len() as int)
    } else {
        s
    }
}

/// The handle that a text stands for: an optional `+`, then one or more
/// digits whose value fits a handle. Any other text stands for none.
pub open spec fn parse_decimal(s: Seq<char>) -> Option<u32> {
    let body = unsigned_part(s);
    if body.len() > 0 && is_digits(body) && digits_value(body) <= u32::MAX {
        Some(digits_value(body) as u32)
    } else {
        None
    }
}

/// The value of a run of digits is at least the value of each of its
/// prefixes.
proof fn lemma_digits_value_grows(s: Seq<char>, k: int)
    requires
        0 <= k <= s.len(),
    ensures
        digits_value(s.take(k)) <= digits_value(s),
    decreases s.len() - k,
{
    if k < s.len() {
        assert(s.drop_last().take(k) =~= s.take(k));
        lemma_digits_value_grows(s.drop_last(), k);
    } else {
        assert(s.take(k) =~= s);
    }
}

/// Reads the handle written in `v` from `lo` up to `hi`.
pub fn parse_handle(v: &Vec<char>, lo: usize, hi: usize) -> (r: Option<u32>)
    requires
        lo <= hi <= v.len(),
    ensures
        r == parse_decimal(v@.subrange(lo as int, hi as int)),
{
    let ghost s = v@.subrange(lo as int, hi as int);
    let mut i: usize = lo;
    if i < hi && v[i] == '+' {
        i = i + 1;
    }
    let start: usize = i;
    let ghost body = v@.subrange(start as int, hi as int);
    assert(body =~= unsigned_part(s));
    if start == hi {
        return None;
    }
    let mut acc: u64 = 0;
    assert(body.take(0) =~= Seq::<char>::empty());
    while i < hi
        invariant
            lo <= start <= i <= hi <= v.len(),
            body == v@.subrange(start as int, hi as int),
            body == unsigned_part(v@.subrange(lo as int, hi as int)),
            is_digits(body.take(i - start)),
            acc == digits_value(body.take(i - start)),
            acc <= u32::MAX,
        decreases hi - i,
    {
        let c = v[i];
        assert(c == body[i - start]);
        if !(c >= '0' && c <= '9') {
            return None;
        }
        let d: u64 = (c as u32 - '0' as u32) as u64;
        let next: u64 = acc * 10 + d;
        proof {
            let longer = body.take(i - start + 1);
            assert(longer.drop_last() =~= body.take(i - start));
            assert(longer.last() == c);
            assert(next == digits_value(longer));
            assert(is_digits(longer)) by {
                assert forall|j: int| 0 <= j < longer.len() implies is_digit(
                    #[trigger] longer[j],
                ) by {
                    if j < i - start {
                        assert(longer[j] == body.take(i - start)[j]);
                    }
                }
            }
            lemma_digits_value_grows(body, i - start + 1);
        }
        if next > 0xffff_ffff {
            return None;
        }
        acc = next;
        i = i + 1;
    }
    assert(body.take(i - start) =~= body);
    Some(acc as u32)
}

/// The decimal form of a number is a non-empty run of digits that stands
/// for that number.
pub proof fn lemma_decimal_digits(n: nat)
    ensures
        decimal(n).len() > 0,
        is_digits(decimal(n)),
        digits_value(decimal(n)) == n,
    decreases n,
{
    if n < 10 {
        let s = decimal(n);
        assert(s.drop_last() =~= Seq::<char>::empty());
        assert(digits_value(s.drop_last()) == 0);
    } else {
        lemma_decimal_digits(n / 10);
        let s = decimal(n);
        assert(s.drop_last() =~= decimal(n / 10));
        assert(s.last() == digit_char(n % 10));
        assert forall|i: int| 0 <= i < s.len() implies is_digit(#[trigger] s[i]) by {
            if i < s.len() - 1 {
                assert(s[i] == decimal(n / 10)[i]);
            }
        }
    }
}

/// Reading what was written gives the number back.
pub proof fn lemma_parse_decimal(n: u32)
    ensures
        parse_decimal(decimal(n as nat)) == Some(n),
{
    lemma_decimal_digits(n as nat);
    assert(is_digit(decimal(n as nat)[0]));
}

/// The text of a list of handles: their decimal forms with a comma between
/// each two.
pub open spec fn join_handles(hs: Seq<u32>) -> Seq<char>
    decreases hs.len(),
{
    if hs.len() == 0 {
        Seq::empty()
    } else if hs.len() == 1 {
        decimal(hs[0] as nat)
    } else {
        join_handles(hs.drop_last()) + seq![','] + decimal(hs.last() as nat)
    }
}

/// Where the last comma of `s` stands, or -1 if it has none.
pub open spec fn last_comma(s: Seq<char>) -> int
    decreases s.len(),
{
    if s.len() == 0 {
        -1
    } else if s.last() == ',' {
        s.len() - 1
    } else {
        last_comma(s.drop_last())
    }
}

/// What one piece of a list contributes: its handle, if it stands for one.
pub open spec fn parsed(piece: Seq<char>) -> Seq<u32> {
    match parse_decimal(piece) {
        Some(h) => seq![h],
        None => Seq::empty(),
    }
}

/// The handles written in a list text: the text is cut at each comma, and
/// each piece that stands for a handle gives it; the other pieces are
/// passed over.
pub open spec fn split_handles(s: Seq<char>) -> Seq<u32>
    decreases s.len(),
{
    let k = last_comma(s);
    if 0 <= k < s.len() {
        split_handles(s.subrange(0, k)) + parsed(s.subrange(k + 1, s.len() as int))
    } else {
        parsed(s)
    }
}

/// A comma with none after it is the last one.
proof fn lemma_last_comma(s: Seq<char>, k: int)
    requires
        -1 <= k < s.len(),
        k >= 0 ==> s[k] == ',',
        forall|j: int| k < j < s.len() ==> s[j] != ',',
    ensures
        last_comma(s) == k,
    decreases s.len(),
{
    if s.len() > 0 && s.last() != ',' {
        lemma_last_comma(s.drop_last(), k);
    }
}

/// Writes a list of handles as one text.
pub fn join_handles_text(hs: &Vec<u32>) -> (s: String)
    ensures
        s@ == join_handles(hs@),
{
    let mut s = String::new();
    let mut i: usize = 0;
    assert(hs@.take(0) =~= Seq::<u32>::empty());
    while i < hs.len()
        invariant
            i <= hs.len(),
            s@ == join_handles(hs@.take(i as int)),
        decreases hs.len() - i,
    {
        if i > 0 {
            proof {
                reveal_strlit(",");
            }
            s.append(",");
            assert(","@ =~= seq![',']);
        }
        let d = decimal_string(hs[i]);
        s.append(d.as_str());
        proof {
            let longer = hs@.take(i + 1);
            assert(longer.drop_last() =~= hs@.take(i as int));
            assert(longer.last() == hs@[i as int]);
            assert(s@ =~= join_handles(longer));
        }
        i = i + 1;
    }
    assert(hs@.take(i as int) =~= hs@);
    s
}

/// Reads the handles written in a list text.
pub fn split_handles_text(text: &str) -> (hs: Vec<u32>)
    ensures
        hs@ == split_handles(text@),
{
    let v = chars_of(text);
    let mut hs: Vec<u32> = Vec::new();
    let mut start: usize = 0;
    let mut i: usize = 0;
    while i < v.len()
        invariant
            start <= i <= v.len(),
            v@ == text@,
            forall|j: int| start <= j < i ==> v@[j] != ',',
            start > 0 ==> v@[start - 1] == ',',
            hs@ == if start == 0 {
                Seq::<u32>::empty()
            } else {
                split_handles(v@.subrange(0, start - 1))
            },
        decreases v.len() - i,
    {
        if v[i] == ',' {
            let piece = parse_handle(&v, start, i);
            proof {
                let s = v@.subrange(0, i as int);
                lemma_last_comma(s, start - 1);
                if start > 0 {
                    assert(s.subrange(0, start - 1) =~= v@.subrange(0, start - 1));
                    assert(s.subrange(start as int, s.len() as int) =~= v@.subrange(
                        start as int,
                        i as int,
                    ));
                } else {
                    assert(s =~= v@.subrange(start as int, i as int));
                }
            }
            match piece {
                Some(h) => {
                    hs.push(h);
                },
                None => {},
            }
            assert(hs@ =~= split_handles(v@.subrange(0, i as int)));
            start = i + 1;
        }
        i = i + 1;
    }
    let piece = parse_handle(&v, start, i);
    proof {
        let s = v@;
        lemma_last_comma(s, start - 1);
        if start > 0 {
            assert(s.subrange(start as int, s.len() as int) =~= v@.subrange(
                start as int,
                i as int,
            ));
        } else {
            assert(s =~= v@.subrange(start as int, i as int));
        }
    }
    match piece {
        Some(h) => {
            hs.push(h);
        },
        None => {},
    }
    assert(hs@ =~= split_handles(v@));
    hs
}

/// Reading a written list gives the list back: the same handles in the
/// same order.
pub proof fn lemma_split_join(hs: Seq<u32>)
    ensures
        split_handles(join_handles(hs)) == hs,
    decreases hs.len(),
{
    let s = join_handles(hs);
    if hs.len() == 0 {
        assert(split_handles(s) =~= hs);
    } else if hs.len() == 1 {
        lemma_decimal_digits(hs[0] as nat);
        lemma_parse_decimal(hs[0]);
        lemma_last_comma(s, -1);
        assert(split_handles(s) =~= hs);
    } else {
        let init = join_handles(hs.drop_last());
        let tail = decimal(hs.last() as nat);
        lemma_decimal_digits(hs.last() as nat);
        lemma_parse_decimal(hs.last());
        lemma_split_join(hs.drop_last());
        let k = init.len() as int;
        assert forall|j: int| k < j < s.len() implies s[j] != ',' by {
            assert(s[j] == tail[j - k - 1]);
        }
        lemma_last_comma(s, k);
        assert(s.subrange(0, k) =~= init);
        assert(s.subrange(k + 1, s.len() as int) =~= tail);
        assert(split_handles(s) =~= hs.drop_last() + seq![hs.last()]);
        assert(hs.drop_last() + seq![hs.last()] =~= hs);
    }
}

/// The view of an optional text.
pub open spec fn text_view(text: Option<String>) -> Option<Seq<char>> {
    match text {
        Some(s) => Some(s@),
        None => None,
    }
}

/// Whether two texts hold the same characters.
pub fn same_text(a: &str, b: &str) -> (r: bool)
    ensures
        r == (a@ == b@),
{
    let x = String::from_str(a);
    let y = String::from_str(b);
    x == y
}

/// The characters of a text, one by one.
pub fn chars_of(s: &str) -> (v: Vec<char>)
    ensures
        v@ == s@,
{
    let mut v: Vec<char> = Vec::new();
    for c in it: s.chars()
        invariant
            it.seq() == s@,
            v@ == it.seq().take(it.index() as int),
    {
        v.push(c);
    }
    v
}

} // verus!
