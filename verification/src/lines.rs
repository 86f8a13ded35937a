//! Splitting file contents into lines.
//!
//! A line ends at a newline character; a carriage return standing right
//! before a newline is not part of the line, so both bare `\n` and `\r\n`
//! endings are handled. Contents that end with a newline yield no empty
//! final line, and a final segment without a newline is kept whole.

use vstd::prelude::*;
use vstd::utf8::is_ascii_chars;

verus! {

/// One trailing carriage return removed, when there is one: what remains of a
/// newline-terminated segment once its `\r\n` ending is accounted for.
pub open spec fn strip_cr(l: Seq<char>) -> Seq<char> {
    if l.len() > 0 && l[l.len() - 1] == '\r' {
        l.take(l.len() - 1)
    } else {
        l
    }
}

/// The lines of `rest`, with `cur` holding the characters of the current line
/// read so far. A newline ends the current line; a final segment is kept only
/// when it is not empty, so contents that end with a newline yield no empty
/// last line.
pub open spec fn lines_from(rest: Seq<char>, cur: Seq<char>) -> Seq<Seq<char>>
    decreases rest.len(),
{
    if rest.len() == 0 {
        if cur.len() == 0 {
            Seq::empty()
        } else {
            seq![cur]
        }
    } else if rest[0] == '\n' {
        seq![strip_cr(cur)] + lines_from(rest.skip(1), Seq::empty())
    } else {
        lines_from(rest.skip(1), cur.push(rest[0]))
    }
}

/// The lines of the contents, in order.
pub open spec fn spec_lines(contents: Seq<char>) -> Seq<Seq<char>> {
    lines_from(contents, Seq::empty())
}

/// Every line of ASCII contents is itself ASCII: splitting only drops
/// characters, never adds any.
proof fn lemma_lines_from_ascii(rest: Seq<char>, cur: Seq<char>)
    requires
        is_ascii_chars(rest),
        is_ascii_chars(cur),
    ensures
        forall|i: int|
            0 <= i < lines_from(rest, cur).len() ==> is_ascii_chars(
                #[trigger] lines_from(rest, cur)[i],
            ),
    decreases rest.len(),
{
    if rest.len() == 0 {
        assert forall|i: int|
            0 <= i < lines_from(rest, cur).len() implies is_ascii_chars(
            #[trigger] lines_from(rest, cur)[i],
        ) by {
            assert(lines_from(rest, cur)[i] == cur);
        }
    } else {
        assert forall|i: int|
            0 <= i < rest.skip(1).len() implies '\0' <= #[trigger] rest.skip(1)[i]
            <= '\u{7f}' by {
            assert(rest.skip(1)[i] == rest[i + 1]);
        }
        assert(is_ascii_chars(rest.skip(1)));
        if rest[0] == '\n' {
            assert(is_ascii_chars(strip_cr(cur)));
            lemma_lines_from_ascii(rest.skip(1), Seq::empty());
            assert forall|i: int|
                0 <= i < lines_from(rest, cur).len() implies is_ascii_chars(
                #[trigger] lines_from(rest, cur)[i],
            ) by {
                if i == 0 {
                    assert(lines_from(rest, cur)[0] == strip_cr(cur));
                } else {
                    assert(lines_from(rest, cur)[i] == lines_from(rest.skip(1), Seq::empty())[
                        i - 1
                    ]);
                }
            }
        } else {
            assert(is_ascii_chars(cur.push(rest[0])));
            lemma_lines_from_ascii(rest.skip(1), cur.push(rest[0]));
            assert forall|i: int|
                0 <= i < lines_from(rest, cur).len() implies is_ascii_chars(
                #[trigger] lines_from(rest, cur)[i],
            ) by {
                assert(lines_from(rest, cur)[i] == lines_from(rest.skip(1), cur.push(rest[0]))[i]);
            }
        }
    }
}

/// Every line of ASCII contents is itself ASCII.
pub(crate) proof fn lemma_lines_ascii(contents: Seq<char>)
    requires
        is_ascii_chars(contents),
    ensures
        forall|i: int|
            0 <= i < spec_lines(contents).len() ==> is_ascii_chars(
                #[trigger] spec_lines(contents)[i],
            ),
{
    lemma_lines_from_ascii(contents, Seq::empty());
}

/// Splits the contents into lines, each line copied into an owned string.
pub fn split_lines(contents: &str) -> (r: Vec<String>)
    ensures
        r.deep_view() == spec_lines(contents@),
{
    let n: usize = contents.unicode_len();
    let mut r: Vec<String> = Vec::new();
    let mut start: usize = 0;
    let mut i: usize = 0;
    proof {
        assert(contents@.skip(0) =~= contents@);
        assert(contents@.subrange(0, 0) =~= Seq::<char>::empty());
        assert(r.deep_view() =~= Seq::<Seq<char>>::empty());
        assert(spec_lines(contents@) =~= r.deep_view() + lines_from(
            contents@.skip(0),
            contents@.subrange(0, 0),
        ));
    }
    while i < n
        invariant
            n == contents@.len(),
            start <= i <= n,
            forall|k: int| start <= k < i ==> contents@[k] != '\n',
            spec_lines(contents@) == r.deep_view() + lines_from(
                contents@.skip(i as int),
                contents@.subrange(start as int, i as int),
            ),
        decreases n - i,
    {
        let ghost cur = contents@.subrange(start as int, i as int);
        let ghost rest = contents@.skip(i as int);
        proof {
            assert(rest.len() == n - i);
            assert(rest[0] == contents@[i as int]);
            assert(rest.skip(1) =~= contents@.skip(i + 1));
        }
        let c = contents.get_char(i);
        if c == '\n' {
            let end: usize = if i > start && contents.get_char(i - 1) == '\r' {
                i - 1
            } else {
                i
            };
            let line = contents.substring_char(start, end).to_owned();
            proof {
                if i > start && contents@[i - 1] == '\r' {
                    assert(cur.len() == i - start > 0);
                    assert(cur[cur.len() - 1] == contents@[i - 1]);
                    assert(cur.take(cur.len() - 1) =~= contents@.subrange(
                        start as int,
                        end as int,
                    ));
                } else {
                    assert(cur =~= contents@.subrange(start as int, end as int));
                }
                assert(line@ == strip_cr(cur));
            }
            let ghost old_r = r.deep_view();
            r.push(line);
            proof {
                assert(r.deep_view() =~= old_r.push(line@));
                assert(lines_from(rest, cur) == seq![strip_cr(cur)] + lines_from(
                    contents@.skip(i + 1),
                    Seq::empty(),
                ));
                assert(old_r + lines_from(rest, cur) =~= r.deep_view() + lines_from(
                    contents@.skip(i + 1),
                    Seq::empty(),
                ));
                assert(contents@.subrange(i + 1, i + 1) =~= Seq::<char>::empty());
            }
            start = i + 1;
        } else {
            proof {
                assert(cur.push(rest[0]) =~= contents@.subrange(start as int, i + 1));
                assert(lines_from(rest, cur) == lines_from(
                    contents@.skip(i + 1),
                    contents@.subrange(start as int, i + 1),
                ));
            }
        }
        i = i + 1;
    }
    proof {
        assert(contents@.skip(n as int).len() == 0);
    }
    if start < n {
        let line = contents.substring_char(start, n).to_owned();
        let ghost old_r = r.deep_view();
        r.push(line);
        proof {
            let cur = contents@.subrange(start as int, n as int);
            assert(lines_from(contents@.skip(n as int), cur) == seq![cur]);
            assert(r.deep_view() =~= old_r.push(line@));
            assert(r.deep_view() =~= old_r + seq![cur]);
        }
    } else {
        proof {
            let cur = contents@.subrange(start as int, n as int);
            assert(cur.len() == 0);
            assert(lines_from(contents@.skip(n as int), cur) =~= Seq::<Seq<char>>::empty());
            assert(r.deep_view() + lines_from(contents@.skip(n as int), cur) =~= r.deep_view());
        }
    }
    r
}

} // verus!
