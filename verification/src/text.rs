//! The line grammar's building blocks: fields separated by `|`, trimmed of
//! surrounding whitespace, and unsigned counts in decimal digits.

use vstd::prelude::*;
use vstd::string::*;

verus! {

/// Whether `char::is_whitespace` holds of a character.
pub uninterp spec fn is_whitespace(c: char) -> bool;

/// `char::is_whitespace` tells whether a character has the Unicode property
/// White_Space; its answer depends on the character alone.
pub assume_specification[ char::is_whitespace ](c: char) -> (r: bool)
    ensures
        r == is_whitespace(c),
;

/// What `u64::from_str` reads from a text, or `None` where it rejects it.
pub uninterp spec fn count_from_text(text: Seq<char>) -> Option<u64>;

/// Error type of std's integer parsing, carried through opaquely.
#[verifier::external_type_specification]
#[verifier::external_body]
pub struct ExParseIntError(std::num::ParseIntError);

/// Calls `str::parse::<u64>`. The outcome is a function of the text alone
/// and is named by `count_from_text`.
#[verifier::external_body]
pub(crate) fn parse_count(text: &str) -> (r: Result<u64, std::num::ParseIntError>)
    ensures
        r.is_ok() == count_from_text(text@).is_some(),
        r.is_ok() ==> count_from_text(text@) == Some(r.unwrap()),
{
    text.parse::<u64>()
}

/// The text without its leading whitespace.
pub open spec fn trim_start(s: Seq<char>) -> Seq<char>
    decreases s.len(),
{
    if s.len() > 0 && is_whitespace(s[0]) {
        trim_start(s.drop_first())
    } else {
        s
    }
}

/// The text without its trailing whitespace.
pub open spec fn trim_end(s: Seq<char>) -> Seq<char>
    decreases s.len(),
{
    if s.len() > 0 && is_whitespace(s.last()) {
        trim_end(s.drop_last())
    } else {
        s
    }
}

/// The text without surrounding whitespace.
pub open spec fn trimmed(s: Seq<char>) -> Seq<char> {
    trim_end(trim_start(s))
}

/// The pieces of a text between its `|` separators, untrimmed. A text
/// without a separator is one piece; an empty text is one empty piece.
pub open spec fn pieces(s: Seq<char>) -> Seq<Seq<char>>
    decreases s.len(),
{
    if s.len() == 0 {
        seq![Seq::<char>::empty()]
    } else {
        let before = pieces(s.drop_last());
        if s.last() == '|' {
            before.push(Seq::<char>::empty())
        } else {
            before.drop_last().push(before.last().push(s.last()))
        }
    }
}

/// The fields of a line: its pieces, each trimmed.
pub open spec fn fields_of(s: Seq<char>) -> Seq<Seq<char>> {
    pieces(s).map_values(|p: Seq<char>| trimmed(p))
}

/// The views of a vector of strings.
pub open spec fn views(v: Seq<String>) -> Seq<Seq<char>> {
    v.map_values(|s: String| s@)
}

pub proof fn lemma_pieces_nonempty(s: Seq<char>)
    ensures
        pieces(s).len() >= 1,
    decreases s.len(),
{
    if s.len() > 0 {
        lemma_pieces_nonempty(s.drop_last());
    }
}

/// Trims a piece of text given by its bounds in `line`.
fn trim_range(line: &str, from: usize, to: usize) -> (r: (usize, usize))
    requires
        from <= to <= line@.len(),
    ensures
        from <= r.0 <= r.1 <= to,
        line@.subrange(r.0 as int, r.1 as int) == trimmed(line@.subrange(from as int, to as int)),
{
    let mut lo: usize = from;
    while lo < to && line.get_char(lo).is_whitespace()
        invariant
            from <= lo <= to <= line@.len(),
            trim_start(line@.subrange(from as int, to as int)) == trim_start(
                line@.subrange(lo as int, to as int),
            ),
        decreases to - lo,
    {
        assert(line@.subrange(lo as int, to as int).drop_first() == line@.subrange(
            lo as int + 1,
            to as int,
        ));
        lo = lo + 1;
    }
    let mut hi: usize = to;
    while lo < hi && line.get_char(hi - 1).is_whitespace()
        invariant
            lo <= hi <= to <= line@.len(),
            trim_end(line@.subrange(lo as int, to as int)) == trim_end(
                line@.subrange(lo as int, hi as int),
            ),
        decreases hi - lo,
    {
        assert(line@.subrange(lo as int, hi as int).drop_last() == line@.subrange(
            lo as int,
            hi as int - 1,
        ));
        hi = hi - 1;
    }
    (lo, hi)
}

/// Splits a line on `|` and trims each field.
pub fn split_fields(line: &str) -> (r: Vec<String>)
    ensures
        views(r@) == fields_of(line@),
        r@.len() >= 1,
{
    let n = line.unicode_len();
    let mut out: Vec<String> = Vec::new();
    let mut start: usize = 0;
    let mut i: usize = 0;
    assert(line@.take(0).len() == 0);
    assert(line@.subrange(0, 0) == Seq::<char>::empty());
    while i < n
        invariant
            n == line@.len(),
            start <= i <= n,
            pieces(line@.take(i as int)).len() == out@.len() + 1,
            pieces(line@.take(i as int)).last() == line@.subrange(start as int, i as int),
            views(out@) == fields_of(line@.take(i as int)).drop_last(),
        decreases n - i,
    {
        let c = line.get_char(i);
        proof {
            let cur = line@.take(i as int);
            let next = line@.take(i as int + 1);
            assert(next.drop_last() == cur);
            assert(next.last() == c);
            lemma_pieces_nonempty(cur);
        }
        if c == '|' {
            let (lo, hi) = trim_range(line, start, i);
            let field = String::from_str(line.substring_char(lo, hi));
            proof {
                let cur = line@.take(i as int);
                let next = line@.take(i as int + 1);
                assert(pieces(next) == pieces(cur).push(Seq::<char>::empty()));
                assert(fields_of(cur) == views(out@).push(field@));
                assert(fields_of(next).drop_last() == fields_of(cur));
                assert(views(out@.push(field)) == views(out@).push(field@));
                assert(line@.subrange(i as int + 1, i as int + 1) == Seq::<char>::empty());
            }
            out.push(field);
            start = i + 1;
        } else {
            proof {
                let cur = line@.take(i as int);
                let next = line@.take(i as int + 1);
                assert(pieces(next) == pieces(cur).drop_last().push(pieces(cur).last().push(c)));
                assert(line@.subrange(start as int, i as int).push(c) == line@.subrange(
                    start as int,
                    i as int + 1,
                ));
                assert(fields_of(next).drop_last() == fields_of(cur).drop_last());
            }
        }
        i = i + 1;
    }
    let (lo, hi) = trim_range(line, start, n);
    let field = String::from_str(line.substring_char(lo, hi));
    proof {
        assert(line@.take(n as int) == line@);
        assert(fields_of(line@) == views(out@).push(field@));
        assert(views(out@.push(field)) == views(out@).push(field@));
    }
    out.push(field);
    out
}

/// The character of a decimal digit.
pub open spec fn digit(d: int) -> char {
    if d == 0 {
        '0'
    } else if d == 1 {
        '1'
    } else if d == 2 {
        '2'
    } else if d == 3 {
        '3'
    } else if d == 4 {
        '4'
    } else if d == 5 {
        '5'
    } else if d == 6 {
        '6'
    } else if d == 7 {
        '7'
    } else if d == 8 {
        '8'
    } else {
        '9'
    }
}

/// A count in decimal digits, without sign or leading zeros.
pub open spec fn count_text(n: nat) -> Seq<char>
    decreases n,
{
    if n < 10 {
        seq![digit(n as int)]
    } else {
        count_text(n / 10).push(digit((n % 10) as int))
    }
}

fn digit_str(d: usize) -> (r: &'static str)
    requires
        d < 10,
    ensures
        r@ == seq![digit(d as int)],
{
    proof {
        reveal_strlit("0");
        reveal_strlit("1");
        reveal_strlit("2");
        reveal_strlit("3");
        reveal_strlit("4");
        reveal_strlit("5");
        reveal_strlit("6");
        reveal_strlit("7");
        reveal_strlit("8");
        reveal_strlit("9");
    }
    let r = if d == 0 {
        "0"
    } else if d == 1 {
        "1"
    } else if d == 2 {
        "2"
    } else if d == 3 {
        "3"
    } else if d == 4 {
        "4"
    } else if d == 5 {
        "5"
    } else if d == 6 {
        "6"
    } else if d == 7 {
        "7"
    } else if d == 8 {
        "8"
    } else {
        "9"
    };
    assert(r@ =~= seq![digit(d as int)]);
    r
}

/// Prints a count in decimal digits.
pub fn count_to_text(n: usize) -> (r: String)
    ensures
        r@ == count_text(n as nat),
{
    let mut out = String::from_str(digit_str(n % 10));
    let mut rest: usize = n / 10;
    while rest > 0
        invariant
            count_text(n as nat) == if rest > 0 {
                count_text(rest as nat) + out@
            } else {
                out@
            },
        decreases rest,
    {
        let head = String::from_str(digit_str(rest % 10));
        proof {
            if rest >= 10 {
                assert(count_text(rest as nat) + out@ =~= count_text((rest / 10) as nat) + (
                seq![digit((rest % 10) as int)] + out@));
            } else {
                assert(count_text(rest as nat) + out@ =~= seq![digit((rest % 10) as int)] + out@);
            }
        }
        out = head.concat(out.as_str());
        rest = rest / 10;
    }
    out
}

} // verus!
