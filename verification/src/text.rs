use vstd::prelude::*;
use vstd::string::StrSliceExecFns;
use vstd::string::StringExecFns;

use crate::diff::str_views;

verus! {

/// The name ends in the spreadsheet suffix `.xlsx`.
pub open spec fn ends_with_xlsx(s: Seq<char>) -> bool {
    s.len() >= 5 && s.subrange(s.len() - 5, s.len() as int) == ".xlsx"@
}

/// Decides whether an output name carries the spreadsheet suffix.
pub fn is_xlsx_path(s: &str) -> (r: bool)
    ensures
        r == ends_with_xlsx(s@),
{
    proof {
        reveal_strlit(".xlsx");
    }
    let n = s.unicode_len();
    if n < 5 {
        return false;
    }
    let ok = s.get_char(n - 5) == '.' && s.get_char(n - 4) == 'x' && s.get_char(n - 3) == 'l'
        && s.get_char(n - 2) == 's' && s.get_char(n - 1) == 'x';
    proof {
        let suffix = s@.subrange(n - 5, n as int);
        if ok {
            assert(suffix =~= ".xlsx"@);
        } else {
            if suffix == ".xlsx"@ {
                assert(s@[n - 5] == suffix[0]);
                assert(s@[n - 4] == suffix[1]);
                assert(s@[n - 3] == suffix[2]);
                assert(s@[n - 2] == suffix[3]);
                assert(s@[n - 1] == suffix[4]);
                assert(false);
            }
        }
    }
    ok
}

/// The pieces of a text between its `;` separators, in order: one piece more
/// than there are separators, each possibly empty. A `;` inside a quoted SQL
/// string literal separates all the same — a known limitation of the batch
/// feature.
pub open spec fn split_semi_rec(s: Seq<char>, cur: Seq<char>) -> Seq<Seq<char>>
    decreases s.len(),
{
    if s.len() == 0 {
        seq![cur]
    } else if s[0] == ';' {
        seq![cur] + split_semi_rec(s.drop_first(), Seq::empty())
    } else {
        split_semi_rec(s.drop_first(), cur.push(s[0]))
    }
}

/// The statements of a batch file: its text split on every `;`.
pub open spec fn split_semi(s: Seq<char>) -> Seq<Seq<char>> {
    split_semi_rec(s, Seq::empty())
}

/// Splits a batch of SQL text on every `;`.
pub fn split_statements(s: &str) -> (r: Vec<String>)
    ensures
        str_views(r@) == split_semi(s@),
{
    let n = s.unicode_len();
    let mut out: Vec<String> = Vec::new();
    let mut start: usize = 0;
    let mut i: usize = 0;
    proof {
        assert(s@.skip(0) =~= s@);
        assert(s@.subrange(0, 0) =~= Seq::<char>::empty());
        assert(str_views(out@) =~= Seq::<Seq<char>>::empty());
        assert(Seq::<Seq<char>>::empty() + split_semi_rec(s@, Seq::empty()) =~= split_semi(s@));
    }
    while i < n
        invariant
            start <= i <= n,
            n == s@.len(),
            split_semi(s@) == str_views(out@) + split_semi_rec(
                s@.skip(i as int),
                s@.subrange(start as int, i as int),
            ),
        decreases n - i,
    {
        let ghost cur = s@.subrange(start as int, i as int);
        let c = s.get_char(i);
        proof {
            assert(s@.skip(i as int)[0] == s@[i as int]);
            assert(s@.skip(i as int).drop_first() =~= s@.skip(i as int + 1));
        }
        if c == ';' {
            let piece = s.substring_char(start, i).to_owned();
            let ghost old_out = out@;
            out.push(piece);
            proof {
                assert(str_views(out@) =~= str_views(old_out).push(cur));
                assert(split_semi_rec(s@.skip(i as int), cur) == seq![cur] + split_semi_rec(
                    s@.skip(i as int + 1),
                    Seq::empty(),
                ));
                assert(str_views(old_out) + (seq![cur] + split_semi_rec(
                    s@.skip(i as int + 1),
                    Seq::empty(),
                )) =~= str_views(out@) + split_semi_rec(s@.skip(i as int + 1), Seq::empty()));
                assert(s@.subrange(i as int + 1, i as int + 1) =~= Seq::<char>::empty());
            }
            start = i + 1;
        } else {
            proof {
                assert(split_semi_rec(s@.skip(i as int), cur) == split_semi_rec(
                    s@.skip(i as int + 1),
                    cur.push(s@[i as int]),
                ));
                assert(s@.subrange(start as int, i as int + 1) =~= cur.push(s@[i as int]));
            }
        }
        i = i + 1;
    }
    let last = s.substring_char(start, n).to_owned();
    let ghost old_out = out@;
    let ghost cur = s@.subrange(start as int, n as int);
    out.push(last);
    proof {
        assert(s@.skip(n as int).len() == 0);
        assert(split_semi_rec(s@.skip(n as int), cur) == seq![cur]);
        assert(str_views(out@) =~= str_views(old_out).push(cur));
        assert(str_views(old_out) + seq![cur] =~= str_views(out@));
    }
    out
}

/// The lines joined by single newlines, no trailing newline.
pub open spec fn joined_lines(lines: Seq<Seq<char>>) -> Seq<char>
    decreases lines.len(),
{
    if lines.len() == 0 {
        Seq::empty()
    } else if lines.len() == 1 {
        lines[0]
    } else {
        joined_lines(lines.drop_last()) + "\n"@ + lines.last()
    }
}

/// Joins the remediation statements into the statement file's text, one
/// statement per line.
pub fn join_lines(lines: &Vec<String>) -> (r: String)
    ensures
        r@ == joined_lines(str_views(lines@)),
{
    let ghost views = str_views(lines@);
    let mut r = String::new();
    let mut i: usize = 0;
    proof {
        assert(views.take(0) =~= Seq::<Seq<char>>::empty());
    }
    while i < lines.len()
        invariant
            i <= lines@.len(),
            views == str_views(lines@),
            views.len() == lines@.len(),
            r@ == joined_lines(views.take(i as int)),
        decreases lines@.len() - i,
    {
        if i > 0 {
            r.append("\n");
        }
        r.append(lines[i].as_str());
        proof {
            let t = views.take(i as int + 1);
            assert(t.drop_last() =~= views.take(i as int));
            assert(t.last() == views[i as int]);
            assert(views[i as int] == lines@[i as int]@);
            if i == 0 {
                assert(r@ =~= joined_lines(t));
            } else {
                assert(r@ =~= joined_lines(t));
            }
        }
        i = i + 1;
    }
    proof {
        assert(views.take(views.len() as int) =~= views);
    }
    r
}

} // verus!
