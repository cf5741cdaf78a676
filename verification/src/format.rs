//! Notification text shaping: title-casing of mode names and the dotted,
//! spaced rendering of model identifiers.

use vstd::prelude::*;

verus! {

/// ASCII uppercase of one character; anything else passes through.
pub open spec fn upper_char(c: char) -> char {
    if 97 <= c as u32 <= 122 {
        ((c as u32) - 32) as char
    } else {
        c
    }
}

/// ASCII lowercase of one character; anything else passes through.
pub open spec fn lower_char(c: char) -> char {
    if 65 <= c as u32 <= 90 {
        ((c as u32) + 32) as char
    } else {
        c
    }
}

pub open spec fn is_digit_char(c: char) -> bool {
    48 <= c as u32 <= 57
}

/// Every character lowercased.
pub open spec fn lower_all(s: Seq<char>) -> Seq<char> {
    Seq::new(s.len(), |i: int| lower_char(s[i]))
}

/// First character uppercased, the rest lowercased.
pub open spec fn title_case(s: Seq<char>) -> Seq<char> {
    if s.len() == 0 {
        s
    } else {
        seq![upper_char(s[0])] + lower_all(s.drop_first())
    }
}

pub fn upper_char_x(c: char) -> (r: char)
    ensures
        r == upper_char(c),
{
    let u = c as u32;
    if 97 <= u && u <= 122 {
        ((u - 32) as u8) as char
    } else {
        c
    }
}

pub fn lower_char_x(c: char) -> (r: char)
    ensures
        r == lower_char(c),
{
    let u = c as u32;
    if 65 <= u && u <= 90 {
        ((u + 32) as u8) as char
    } else {
        c
    }
}

fn is_digit_char_x(c: char) -> (r: bool)
    ensures
        r == is_digit_char(c),
{
    let u = c as u32;
    48 <= u && u <= 57
}

/// The characters of a string slice, in order.
pub fn chars_of(s: &str) -> (out: Vec<char>)
    ensures
        out@ == s@,
{
    let n = s.unicode_len();
    let mut out: Vec<char> = Vec::new();
    let mut i: usize = 0;
    while i < n
        invariant
            0 <= i <= n,
            n == s@.len(),
            out@ == s@.take(i as int),
        decreases n - i,
    {
        let c = s.get_char(i);
        out.push(c);
        proof {
            assert(s@.take(i + 1) =~= s@.take(i as int).push(s@[i as int]));
        }
        i = i + 1;
    }
    proof {
        assert(s@.take(n as int) =~= s@);
    }
    out
}

/// Relies on String::push: appends exactly the one character.
#[verifier::external_body]
fn push_char(s: &mut String, c: char)
    ensures
        final(s)@ == old(s)@.push(c),
{
    s.push(c);
}

/// A string holding exactly the given characters.
pub fn string_of(cs: &Vec<char>) -> (r: String)
    ensures
        r@ == cs@,
{
    let n = cs.len();
    let mut r = String::new();
    let mut i: usize = 0;
    while i < n
        invariant
            0 <= i <= n,
            n == cs@.len(),
            r@ == cs@.take(i as int),
        decreases n - i,
    {
        push_char(&mut r, cs[i]);
        proof {
            assert(cs@.take(i + 1) =~= cs@.take(i as int).push(cs@[i as int]));
        }
        i = i + 1;
    }
    proof {
        assert(cs@.take(n as int) =~= cs@);
    }
    r
}

/// Walk the identifier left to right, gathering segments split at dashes; a
/// dash with a digit on both sides in the raw text turns into a dot inside
/// the current segment instead of a split. `cur` and `acc` carry what has
/// been gathered before position `i`.
pub open spec fn seg_step(s: Seq<char>, i: int, cur: Seq<char>, acc: Seq<Seq<char>>) -> Seq<
    Seq<char>,
>
    decreases s.len() - i,
{
    if i < 0 || i >= s.len() {
        if cur.len() > 0 {
            acc.push(cur)
        } else {
            acc
        }
    } else if s[i] == '-' {
        if i > 0 && is_digit_char(s[i - 1]) && i + 1 < s.len() && is_digit_char(s[i + 1]) {
            seg_step(s, i + 1, cur.push('.'), acc)
        } else if cur.len() > 0 {
            seg_step(s, i + 1, Seq::empty(), acc.push(cur))
        } else {
            seg_step(s, i + 1, cur, acc)
        }
    } else {
        seg_step(s, i + 1, cur.push(s[i]), acc)
    }
}

/// The dash-split segments of a model identifier.
pub open spec fn segments(s: Seq<char>) -> Seq<Seq<char>> {
    seg_step(s, 0, Seq::empty(), Seq::empty())
}

/// Segments joined with single spaces.
pub open spec fn join_spaces(ps: Seq<Seq<char>>) -> Seq<char>
    decreases ps.len(),
{
    if ps.len() == 0 {
        Seq::empty()
    } else if ps.len() == 1 {
        ps[0]
    } else {
        join_spaces(ps.drop_last()) + seq![' '] + ps.last()
    }
}

/// Each segment title-cased.
pub open spec fn titled(ps: Seq<Seq<char>>) -> Seq<Seq<char>> {
    Seq::new(ps.len(), |i: int| title_case(ps[i]))
}

/// How a mode name reads in a notification.
pub open spec fn mode_text(s: Seq<char>) -> Seq<char> {
    if s.len() == 0 {
        "Unknown mode"@
    } else {
        title_case(s)
    }
}

/// How a model identifier reads in a notification.
pub open spec fn model_text(s: Seq<char>) -> Seq<char> {
    if s.len() == 0 || segments(s).len() == 0 {
        "Unknown model"@
    } else {
        join_spaces(titled(segments(s)))
    }
}

/// Title-case the characters of `p` onto the end of `out`.
#[verifier::loop_isolation(false)]
fn push_title_cased(out: &mut Vec<char>, p: &Vec<char>)
    ensures
        final(out)@ == old(out)@ + title_case(p@),
{
    let n = p.len();
    if n == 0 {
        proof {
            assert(old(out)@ + title_case(p@) =~= old(out)@);
        }
        return ;
    }
    out.push(upper_char_x(p[0]));
    let mut j: usize = 1;
    while j < n
        invariant
            1 <= j <= n,
            out@ == old(out)@ + seq![upper_char(p@[0])] + Seq::new((j - 1) as nat, |q: int| lower_char(p@[q + 1])),
        decreases n - j,
    {
        out.push(lower_char_x(p[j]));
        proof {
            assert(Seq::new(j as nat, |q: int| lower_char(p@[q + 1])) =~= Seq::new(
                (j - 1) as nat,
                |q: int| lower_char(p@[q + 1]),
            ).push(lower_char(p@[j as int])));
            assert(old(out)@ + seq![upper_char(p@[0])] + Seq::new(
                j as nat,
                |q: int| lower_char(p@[q + 1]),
            ) =~= (old(out)@ + seq![upper_char(p@[0])] + Seq::new(
                (j - 1) as nat,
                |q: int| lower_char(p@[q + 1]),
            )).push(lower_char(p@[j as int])));
        }
        j = j + 1;
    }
    proof {
        assert(Seq::new((n - 1) as nat, |q: int| lower_char(p@[q + 1])) =~= lower_all(
            p@.drop_first(),
        ));
        assert(out@ =~= old(out)@ + title_case(p@));
    }
}

/// Title-case the raw mode; an empty mode reads "Unknown mode".
pub fn format_mode(raw: &str) -> (r: String)
    ensures
        r@ == mode_text(raw@),
{
    let cs = chars_of(raw);
    if cs.len() == 0 {
        return String::from_str("Unknown mode");
    }
    let mut out: Vec<char> = Vec::new();
    push_title_cased(&mut out, &cs);
    proof {
        assert(Seq::<char>::empty() + title_case(cs@) =~= title_case(cs@));
    }
    string_of(&out)
}

/// Split the raw model identifier on dashes, keep digit-dash-digit as a dot,
/// title-case each segment and join with spaces; when nothing is left the
/// text reads "Unknown model".
#[verifier::loop_isolation(false)]
#[verifier::rlimit(60)]
pub fn format_model(raw: &str) -> (r: String)
    ensures
        r@ == model_text(raw@),
{
    let cs = chars_of(raw);
    let n = cs.len();
    if n == 0 {
        return String::from_str("Unknown model");
    }
    let mut parts: Vec<Vec<char>> = Vec::new();
    let mut cur: Vec<char> = Vec::new();
    proof {
        assert(cur@ =~= Seq::<char>::empty());
        assert(part_views(parts@) =~= Seq::<Seq<char>>::empty());
    }
    let mut i: usize = 0;
    while i < n
        invariant
            0 <= i <= n,
            n == cs@.len(),
            seg_step(cs@, i as int, cur@, part_views(parts@)) == segments(cs@),
        decreases n - i,
    {
        let c = cs[i];
        if c == '-' {
            let prev_digit = i > 0 && is_digit_char_x(cs[i - 1]);
            let next_digit = i + 1 < n && is_digit_char_x(cs[i + 1]);
            if prev_digit && next_digit {
                cur.push('.');
            } else if cur.len() > 0 {
                let ghost pv = part_views(parts@);
                let ghost c0 = cur@;
                parts.push(cur);
                proof {
                    assert(part_views(parts@) =~= pv.push(c0));
                }
                cur = Vec::new();
            }
        } else {
            cur.push(c);
        }
        i = i + 1;
    }
    if cur.len() > 0 {
        let ghost pv = part_views(parts@);
        let ghost c0 = cur@;
        parts.push(cur);
        proof {
            assert(part_views(parts@) =~= pv.push(c0));
        }
    }
    proof {
        assert(part_views(parts@) == segments(cs@));
    }
    let m = parts.len();
    if m == 0 {
        return String::from_str("Unknown model");
    }
    let mut out: Vec<char> = Vec::new();
    let mut k: usize = 0;
    while k < m
        invariant
            0 <= k <= m,
            m == parts@.len(),
            part_views(parts@) == segments(cs@),
            out@ == join_spaces(titled(part_views(parts@).take(k as int))),
        decreases m - k,
    {
        if k > 0 {
            out.push(' ');
        }
        push_title_cased(&mut out, &parts[k]);
        proof {
            let pv = part_views(parts@);
            let upto = titled(pv.take(k as int));
            let next = titled(pv.take(k + 1));
            assert(next.drop_last() =~= upto);
            assert(next.last() == title_case(pv[k as int]));
            if k == 0 {
                assert(out@ =~= join_spaces(next));
            } else {
                assert(join_spaces(next) == join_spaces(upto) + seq![' '] + title_case(
                    pv[k as int],
                ));
                assert(out@ =~= join_spaces(next));
            }
        }
        k = k + 1;
    }
    proof {
        assert(part_views(parts@).take(m as int) =~= part_views(parts@));
    }
    string_of(&out)
}

/// The views of gathered segments.
pub open spec fn part_views(ps: Seq<Vec<char>>) -> Seq<Seq<char>> {
    Seq::new(ps.len(), |i: int| ps[i]@)
}

/// The characters of `cs` between `a` and `b`.
pub fn chars_copy(cs: &Vec<char>, a: usize, b: usize) -> (out: Vec<char>)
    requires
        a <= b <= cs@.len(),
    ensures
        out@ == cs@.subrange(a as int, b as int),
{
    let mut out: Vec<char> = Vec::new();
    let mut p = a;
    while p < b
        invariant
            a <= p <= b,
            b <= cs@.len(),
            out@ == cs@.subrange(a as int, p as int),
        decreases b - p,
    {
        out.push(cs[p]);
        proof {
            assert(cs@.subrange(a as int, p + 1) =~= cs@.subrange(a as int, p as int).push(
                cs@[p as int],
            ));
        }
        p = p + 1;
    }
    out
}

} // verus!
