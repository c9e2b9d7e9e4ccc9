use vstd::prelude::*;
use vstd::string::StrSliceExecFns;

verus! {

/// Index of the first newline in `s`, or `s.len()` when there is none.
pub open spec fn first_newline(s: Seq<char>) -> int
    decreases s.len(),
{
    if s.len() == 0 {
        0
    } else if s[0] == '\n' {
        0
    } else {
        1 + first_newline(s.skip(1))
    }
}

/// What `first_newline` finds is in range, is the first, and is a newline.
pub proof fn lemma_first_newline(s: Seq<char>)
    ensures
        0 <= first_newline(s) <= s.len(),
        forall|j: int| 0 <= j < first_newline(s) ==> s[j] != '\n',
        first_newline(s) < s.len() ==> s[first_newline(s)] == '\n',
    decreases s.len(),
{
    if s.len() == 0 {
    } else if s[0] == '\n' {
    } else {
        lemma_first_newline(s.skip(1));
        assert forall|j: int| 0 <= j < first_newline(s) implies s[j] != '\n' by {
            if j > 0 {
                assert(s.skip(1)[j - 1] == s[j]);
            }
        }
        if first_newline(s) < s.len() {
            assert(s.skip(1)[first_newline(s) - 1] == s[first_newline(s)]);
        }
    }
}

/// A position before which there is no newline, and which is either the
/// end or a newline, is exactly `first_newline`.
pub proof fn lemma_first_newline_unique(s: Seq<char>, i: int)
    requires
        0 <= i <= s.len(),
        forall|j: int| 0 <= j < i ==> s[j] != '\n',
        i < s.len() ==> s[i] == '\n',
    ensures
        first_newline(s) == i,
    decreases s.len(),
{
    if s.len() == 0 {
    } else if s[0] == '\n' {
        assert(i == 0);
    } else {
        assert(i >= 1);
        assert forall|j: int| 0 <= j < i - 1 implies s.skip(1)[j] != '\n' by {
            assert(s.skip(1)[j] == s[j + 1]);
        }
        if i < s.len() {
            assert(s.skip(1)[i - 1] == s[i]);
        }
        lemma_first_newline_unique(s.skip(1), i - 1);
    }
}

/// One trailing carriage return is dropped from a line that a newline ended.
pub open spec fn strip_cr(s: Seq<char>) -> Seq<char> {
    if s.len() > 0 && s.last() == '\r' {
        s.drop_last()
    } else {
        s
    }
}

/// The lines of `s`: split at `'\n'`, a `"\r\n"` counting as one line
/// break; a final line break produces no empty last line.
pub open spec fn split_lines(s: Seq<char>) -> Seq<Seq<char>>
    decreases s.len(),
    via split_lines_decreases
{
    if s.len() == 0 {
        Seq::empty()
    } else {
        let i = first_newline(s);
        if i == s.len() {
            seq![s]
        } else {
            seq![strip_cr(s.take(i))] + split_lines(s.skip(i + 1))
        }
    }
}

#[via_fn]
proof fn split_lines_decreases(s: Seq<char>) {
    lemma_first_newline(s);
}

/// The views of a vector of owned lines.
pub open spec fn views_of(ss: Seq<String>) -> Seq<Seq<char>> {
    ss.map_values(|s: String| s@)
}

/// Finds the first newline of `s`, or its length when there is none.
fn find_newline(s: &str) -> (r: usize)
    ensures
        r == first_newline(s@),
{
    let len = s.unicode_len();
    let mut i: usize = 0;
    while i < len
        invariant
            i <= len,
            len == s@.len(),
            forall|j: int| 0 <= j < i ==> s@[j] != '\n',
        decreases len - i,
    {
        if s.get_char(i) == '\n' {
            proof {
                lemma_first_newline_unique(s@, i as int);
            }
            return i;
        }
        i += 1;
    }
    proof {
        lemma_first_newline_unique(s@, len as int);
    }
    len
}

/// Splits raw input text into its lines, exactly as `split_lines` says.
pub fn split_into_lines(text: &str) -> (r: Vec<String>)
    ensures
        views_of(r@) == split_lines(text@),
{
    let mut lines: Vec<String> = Vec::new();
    let mut rest: String = text.to_owned();
    loop
        invariant_except_break
            views_of(lines@) + split_lines(rest@) == split_lines(text@),
        ensures
            views_of(lines@) == split_lines(text@),
        decreases rest@.len(),
    {
        let rlen = rest.as_str().unicode_len();
        if rlen == 0 {
            proof {
                assert(split_lines(rest@) =~= Seq::<Seq<char>>::empty());
                assert(views_of(lines@) + split_lines(rest@) =~= views_of(lines@));
            }
            break ;
        }
        let i = find_newline(rest.as_str());
        proof {
            lemma_first_newline(rest@);
        }
        if i == rlen {
            let ghost old_lines = lines@;
            let ghost whole = rest@;
            lines.push(rest);
            proof {
                assert(split_lines(whole) =~= seq![whole]);
                assert(views_of(lines@) =~= views_of(old_lines) + seq![whole]);
                assert(views_of(lines@) =~= split_lines(text@));
            }
            break ;
        }
        let end = if i > 0 && rest.as_str().get_char(i - 1) == '\r' {
            i - 1
        } else {
            i
        };
        let line = rest.as_str().substring_char(0, end).to_owned();
        let new_rest = rest.as_str().substring_char(i + 1, rlen).to_owned();
        let ghost old_lines = lines@;
        let ghost old_rest = rest@;
        lines.push(line);
        rest = new_rest;
        proof {
            assert(old_rest.take(i as int) =~= old_rest.subrange(0, i as int));
            if i > 0 && old_rest[i as int - 1] == '\r' {
                assert(strip_cr(old_rest.take(i as int)) =~= old_rest.subrange(
                    0,
                    i as int - 1,
                ));
            } else {
                assert(strip_cr(old_rest.take(i as int)) =~= old_rest.subrange(0, i as int));
            }
            assert(rest@ =~= old_rest.skip(i as int + 1));
            assert(split_lines(old_rest) =~= seq![strip_cr(old_rest.take(i as int))]
                + split_lines(old_rest.skip(i as int + 1)));
            assert(views_of(lines@) =~= views_of(old_lines) + seq![
                strip_cr(old_rest.take(i as int)),
            ]);
            assert(views_of(lines@) + split_lines(rest@) =~= split_lines(text@));
        }
    }
    lines
}

} // verus!
