//! Line searching: return every line of a text that contains a query
//! string, case-sensitively or case-insensitively.

use vstd::prelude::*;
use vstd::slice::slice_index_get;

use crate::lex::chars_of;
use crate::lex::rest_len;

verus! {

/// How many characters before the next newline, from position `i` on.
pub open spec fn line_run_len(s: Seq<char>, i: int) -> nat
    decreases rest_len(s, i),
{
    if 0 <= i && i < s.len() && s[i] != '\n' {
        1 + line_run_len(s, i + 1)
    } else {
        0
    }
}

/// Drop one trailing carriage return, as a line ending `\r\n` leaves one.
pub open spec fn strip_cr(l: Seq<char>) -> Seq<char> {
    if l.len() > 0 && l.last() == '\r' {
        l.drop_last()
    } else {
        l
    }
}

/// The lines of `s` from position `i` on: segments split at `\n`, each
/// stripped of the `\r` of a `\r\n` ending; a final line ending produces
/// no empty last line.
pub open spec fn lines_from(s: Seq<char>, i: int) -> Seq<Seq<char>>
    decreases rest_len(s, i),
{
    if !(0 <= i && i < s.len()) {
        Seq::empty()
    } else {
        let j = i + line_run_len(s, i) as int;
        let seg = s.subrange(i, j);
        let line = if j < s.len() {
            strip_cr(seg)
        } else {
            seg
        };
        seq![line] + lines_from(s, j + 1)
    }
}

/// The lines of a whole text.
pub open spec fn lines_of(s: Seq<char>) -> Seq<Seq<char>> {
    lines_from(s, 0)
}

/// `n` occurs in `h` as a contiguous subsequence.
pub open spec fn spec_contains(h: Seq<char>, n: Seq<char>) -> bool {
    exists|i: int| 0 <= i <= h.len() - n.len() && #[trigger] h.subrange(i, i + n.len() as int)
        == n
}

/// What `str::to_lowercase` returns for a string with these characters;
/// the result depends on the characters alone.
pub uninterp spec fn lower_of(s: Seq<char>) -> Seq<char>;

/// Relies on `str::to_lowercase`: the lowercase form of `s`, a function of
/// its characters alone.
#[verifier::external_body]
fn lowercase(s: &str) -> (r: String)
    ensures
        r@ == lower_of(s@),
{
    s.to_lowercase()
}

/// The lines that contain `q`; with `folded`, the lines whose lowercase
/// form contains `q`.  Either way the lines are kept as they were.
pub open spec fn matching_lines(ls: Seq<Seq<char>>, q: Seq<char>, folded: bool) -> Seq<Seq<char>>
    decreases ls.len(),
{
    if ls.len() == 0 {
        Seq::empty()
    } else {
        let rest = matching_lines(ls.drop_first(), q, folded);
        let hit = if folded {
            spec_contains(lower_of(ls[0]), q)
        } else {
            spec_contains(ls[0], q)
        };
        if hit {
            seq![ls[0]] + rest
        } else {
            rest
        }
    }
}

/// Whether `n` occurs in `h` starting exactly at position `i`.
fn match_at(h: &Vec<char>, n: &Vec<char>, i: usize) -> (b: bool)
    requires
        i + n@.len() <= h@.len(),
    ensures
        b == (h@.subrange(i as int, i as int + n@.len() as int) == n@),
{
    let ghost sub = h@.subrange(i as int, i as int + n@.len() as int);
    let m = n.len();
    let hn = h.len();
    let mut j: usize = 0;
    while j < m
        invariant
            j <= m,
            m == n@.len(),
            hn == h@.len(),
            i + m <= hn,
            sub == h@.subrange(i as int, i as int + n@.len() as int),
            forall|k: int| 0 <= k < j ==> #[trigger] sub[k] == n@[k],
        decreases m - j,
    {
        if h[i + j] != n[j] {
            proof {
                assert(sub[j as int] == h@[i + j]);
                assert(sub != n@);
            }
            return false;
        }
        j = j + 1;
    }
    proof {
        assert(sub =~= n@);
    }
    true
}

/// Whether `needle` occurs anywhere in `hay`.
fn str_contains(hay: &str, needle: &str) -> (b: bool)
    ensures
        b == spec_contains(hay@, needle@),
{
    let h = chars_of(hay);
    let n = chars_of(needle);
    if n.len() > h.len() {
        return false;
    }
    if n.len() == 0 {
        proof {
            assert(hay@.subrange(0, 0 + needle@.len() as int) =~= needle@);
        }
        return true;
    }
    let hn = h.len();
    let last = hn - n.len();
    let mut i: usize = 0;
    while i <= last
        invariant
            i <= last + 1,
            hn == h@.len(),
            last == h@.len() - n@.len(),
            n@.len() >= 1,
            h@ == hay@,
            n@ == needle@,
            forall|k: int|
                0 <= k < i ==> #[trigger] h@.subrange(k, k + n@.len() as int) != n@,
        decreases last + 1 - i,
    {
        if match_at(&h, &n, i) {
            proof {
                assert(hay@.subrange(i as int, i as int + needle@.len() as int) == needle@);
            }
            return true;
        }
        i = i + 1;
    }
    proof {
        assert forall|k: int| 0 <= k <= hay@.len() - needle@.len() implies #[trigger] hay@
            .subrange(k, k + needle@.len() as int) != needle@ by {
            assert(h@.subrange(k, k + n@.len() as int) != n@);
        }
    }
    false
}

/// The lines of `contents` that contain `query`, with `folded` after case
/// folding both sides.
fn search_lines<'a>(query: &str, contents: &'a str, folded: bool) -> (r: Vec<&'a str>)
    ensures
        r.deep_view() == matching_lines(lines_of(contents@), query@, folded),
{
    let s = chars_of(contents);
    let n = s.len();
    let mut r: Vec<&'a str> = Vec::new();
    let mut i: usize = 0;
    while i < n
        invariant
            i <= n,
            n == contents@.len(),
            s@ == contents@,
            matching_lines(lines_of(contents@), query@, folded) == r.deep_view()
                + matching_lines(lines_from(contents@, i as int), query@, folded),
        decreases n - i,
    {
        let ghost cs = contents@;
        let ghost before = r.deep_view();
        let mut j: usize = i;
        while j < n && s[j] != '\n'
            invariant
                i <= j <= n,
                n == cs.len(),
                s@ == cs,
                line_run_len(cs, i as int) == line_run_len(cs, j as int) + j - i,
            decreases n - j,
        {
            assert(line_run_len(cs, j as int) == 1 + line_run_len(cs, j as int + 1));
            j = j + 1;
        }
        assert(line_run_len(cs, j as int) == 0);
        assert(j == i + line_run_len(cs, i as int));
        let ghost seg = cs.subrange(i as int, j as int);
        let line_end = if j < n && j > i && s[j - 1] == '\r' {
            j - 1
        } else {
            j
        };
        let line = contents.substring_char(i, line_end);
        let ghost lm = if j < cs.len() {
            strip_cr(seg)
        } else {
            seg
        };
        proof {
            if j < cs.len() && j > i && cs[j - 1] == '\r' {
                assert(seg.len() > 0 && seg.last() == '\r');
                assert(line@ =~= seg.drop_last());
            } else {
                if j < cs.len() && seg.len() > 0 {
                    assert(seg.last() == cs[j - 1]);
                }
                assert(line@ =~= seg);
            }
            assert(line@ == lm);
        }
        let hit = if folded {
            let low = lowercase(line);
            str_contains(low.as_str(), query)
        } else {
            str_contains(line, query)
        };
        if hit {
            r.push(line);
        }
        proof {
            let rest = lines_from(cs, j + 1);
            assert(lines_from(cs, i as int) == seq![lm] + rest);
            let ls = seq![lm] + rest;
            assert(ls[0] == lm);
            assert(ls.drop_first() =~= rest);
            if hit {
                assert(r.deep_view() =~= before.push(lm));
                assert(matching_lines(ls, query@, folded) == seq![lm] + matching_lines(
                    rest,
                    query@,
                    folded,
                ));
                assert(before.push(lm) + matching_lines(rest, query@, folded) =~= before + (seq![
                    lm,
                ] + matching_lines(rest, query@, folded)));
            } else {
                assert(matching_lines(ls, query@, folded) == matching_lines(rest, query@, folded));
            }
        }
        if j < n {
            i = j + 1;
        } else {
            proof {
                assert(lines_from(cs, j + 1) =~= Seq::<Seq<char>>::empty());
                assert(lines_from(cs, n as int) =~= Seq::<Seq<char>>::empty());
            }
            i = n;
        }
    }
    proof {
        assert(lines_from(contents@, i as int) =~= Seq::<Seq<char>>::empty());
        assert(r.deep_view() + Seq::<Seq<char>>::empty() =~= r.deep_view());
    }
    r
}

/// The lines of `contents` that contain `query`.
pub fn search<'a>(query: &str, contents: &'a str) -> (r: Vec<&'a str>)
    ensures
        r.deep_view() == matching_lines(lines_of(contents@), query@, false),
{
    search_lines(query, contents, false)
}

/// The lines of `contents` whose lowercase form contains the lowercase
/// form of `query`; the lines are returned as they were.
pub fn search_case_insensitive<'a>(query: &str, contents: &'a str) -> (r: Vec<&'a str>)
    ensures
        r.deep_view() == matching_lines(lines_of(contents@), lower_of(query@), true),
{
    let lowered = lowercase(query);
    search_lines(lowered.as_str(), contents, true)
}

/// Pick the query and file name out of the command-line arguments.
pub fn parse_args<'a>(args: &'a [String]) -> (r: Result<(&'a str, &'a str), &'a str>)
    ensures
        args@.len() < 3 <==> r is Err,
        r matches Ok((q, f)) ==> q@ == args@[1]@ && f@ == args@[2]@,
        r matches Err(e) ==> e@ == "Not enough arguments"@,
{
    if args.len() < 3 {
        return Err("Not enough arguments");
    }
    Ok((slice_index_get(args, 1).as_str(), slice_index_get(args, 2).as_str()))
}

} // verus!
