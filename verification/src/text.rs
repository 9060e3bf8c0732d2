//! The text normalizer: turns the raw text of one listing card into an
//! ordered list of trimmed, non-empty fields.
//!
//! The steps, in order: each newline becomes the field separator `;`, each
//! run of three literal spaces (a layout artifact) is deleted, the remaining
//! whitespace is collapsed (ends trimmed, each whitespace run becomes one
//! space), the string is split on `;`, empty and single-space pieces are
//! dropped, and each surviving piece is trimmed.

use vstd::prelude::*;
use vstd::string::*;

verus! {

/// The Unicode white-space characters, exactly as `char::is_whitespace`
/// counts them.
pub open spec fn is_wschar(c: char) -> bool {
    let u = c as u32;
    u == 0x20 || (0x09 <= u && u <= 0x0d) || u == 0x85 || u == 0xa0 || u == 0x1680
        || (0x2000 <= u && u <= 0x200a) || u == 0x2028 || u == 0x2029 || u == 0x202f
        || u == 0x205f || u == 0x3000
}

pub fn is_ws(c: char) -> (b: bool)
    ensures
        b == is_wschar(c),
{
    let u = c as u32;
    u == 0x20 || (0x09 <= u && u <= 0x0d) || u == 0x85 || u == 0xa0 || u == 0x1680
        || (0x2000 <= u && u <= 0x200a) || u == 0x2028 || u == 0x2029 || u == 0x202f
        || u == 0x205f || u == 0x3000
}

/// The characters with the leading and trailing whitespace removed.
pub open spec fn trimmed(s: Seq<char>) -> Seq<char>
    decreases s.len(),
{
    if s.len() == 0 {
        s
    } else if is_wschar(s[0]) {
        trimmed(s.drop_first())
    } else if is_wschar(s.last()) {
        trimmed(s.drop_last())
    } else {
        s
    }
}

/// One step of the whitespace collapse: a whitespace character becomes a
/// single space, and is dropped when the previous kept character was
/// already whitespace.
pub open spec fn collapse_step(acc: Seq<char>, c: char) -> Seq<char> {
    if acc.len() == 0 {
        acc.push(c)
    } else if is_wschar(c) {
        if is_wschar(acc.last()) {
            acc
        } else {
            acc.push(' ')
        }
    } else {
        acc.push(c)
    }
}

pub open spec fn collapse_chars(s: Seq<char>) -> Seq<char>
    decreases s.len(),
{
    if s.len() == 0 {
        Seq::empty()
    } else {
        collapse_step(collapse_chars(s.drop_last()), s.last())
    }
}

/// What `collapse::collapse` returns: the ends trimmed, then every
/// remaining whitespace run replaced by one space character.
pub open spec fn collapse_ws_spec(s: Seq<char>) -> Seq<char> {
    collapse_chars(trimmed(s))
}

/// Relies on collapse::collapse: trims leading and trailing whitespace and
/// collapses all consecutive whitespace to a single space character.
#[verifier::external_body]
fn collapse_ws(s: &str) -> (r: String)
    ensures
        r@ == collapse_ws_spec(s@),
{
    collapse::collapse(s)
}

/// Relies on String::from_iter: the string holding exactly these
/// characters in order.
#[verifier::external_body]
fn chars_to_string(v: &Vec<char>) -> (r: String)
    ensures
        r@ == v@,
{
    v.iter().collect()
}

/// Each newline replaced by the field separator `;`.
pub open spec fn replace_newlines(s: Seq<char>) -> Seq<char> {
    s.map_values(|c: char| if c == '\n' { ';' } else { c })
}

/// Each occurrence of three consecutive literal spaces deleted, scanning
/// left to right without overlap.
pub open spec fn strip_padding(s: Seq<char>) -> Seq<char>
    decreases s.len(),
{
    if s.len() < 3 {
        s
    } else if s[0] == ' ' && s[1] == ' ' && s[2] == ' ' {
        strip_padding(s.skip(3))
    } else {
        seq![s[0]] + strip_padding(s.drop_first())
    }
}

/// The pieces of the string between `;` separators, in order, empty pieces
/// included.
pub open spec fn split_fields(s: Seq<char>) -> Seq<Seq<char>>
    decreases s.len(),
{
    if s.len() == 0 {
        seq![Seq::<char>::empty()]
    } else if s[0] == ';' {
        seq![Seq::<char>::empty()] + split_fields(s.drop_first())
    } else {
        let rest = split_fields(s.drop_first());
        seq![seq![s[0]] + rest[0]] + rest.skip(1)
    }
}

proof fn lemma_split_fields_len(s: Seq<char>)
    ensures
        split_fields(s).len() >= 1,
    decreases s.len(),
{
    if s.len() == 0 {
    } else if s[0] == ';' {
    } else {
        lemma_split_fields_len(s.drop_first());
    }
}

/// A piece survives the filter when it is neither empty nor a lone space.
pub open spec fn kept_field(p: Seq<char>) -> bool {
    p != Seq::<char>::empty() && p != seq![' ']
}

/// The surviving pieces, each trimmed, in order.
pub open spec fn clean_fields(ps: Seq<Seq<char>>) -> Seq<Seq<char>>
    decreases ps.len(),
{
    if ps.len() == 0 {
        Seq::empty()
    } else {
        let rest = clean_fields(ps.drop_last());
        if kept_field(ps.last()) {
            rest.push(trimmed(ps.last()))
        } else {
            rest
        }
    }
}

/// What the normalizer returns for a raw card text.
pub open spec fn normalize_spec(s: Seq<char>) -> Seq<Seq<char>> {
    clean_fields(split_fields(collapse_ws_spec(strip_padding(replace_newlines(s)))))
}

/// The views of a list of character buffers.
pub open spec fn pieces_view(v: Seq<Vec<char>>) -> Seq<Seq<char>> {
    v.map_values(|p: Vec<char>| p@)
}

/// The views of a list of strings.
pub open spec fn fields_view(v: Seq<String>) -> Seq<Seq<char>> {
    v.map_values(|s: String| s@)
}

/// The characters of the string, in order.
pub fn str_chars(s: &str) -> (v: Vec<char>)
    ensures
        v@ == s@,
{
    let n = s.unicode_len();
    let mut v: Vec<char> = Vec::new();
    let mut i: usize = 0;
    while i < n
        invariant
            i <= n,
            n == s@.len(),
            v@ == s@.take(i as int),
        decreases n - i,
    {
        let c = s.get_char(i);
        v.push(c);
        i = i + 1;
        proof {
            assert(s@.take(i as int) =~= s@.take(i as int - 1).push(s@[i as int - 1]));
        }
    }
    proof {
        assert(s@.take(n as int) =~= s@);
    }
    v
}

fn replace_newlines_exec(s: &Vec<char>) -> (r: Vec<char>)
    ensures
        r@ == replace_newlines(s@),
{
    let mut r: Vec<char> = Vec::new();
    let mut i: usize = 0;
    while i < s.len()
        invariant
            i <= s@.len(),
            r@ == replace_newlines(s@.take(i as int)),
        decreases s@.len() - i,
    {
        let c = s[i];
        if c == '\n' {
            r.push(';');
        } else {
            r.push(c);
        }
        i = i + 1;
        proof {
            assert(replace_newlines(s@.take(i as int)) =~= replace_newlines(
                s@.take(i as int - 1),
            ).push(if s@[i as int - 1] == '\n' { ';' } else { s@[i as int - 1] }));
        }
    }
    proof {
        assert(s@.take(s@.len() as int) =~= s@);
    }
    r
}

fn strip_padding_exec(s: &Vec<char>) -> (r: Vec<char>)
    ensures
        r@ == strip_padding(s@),
{
    let mut r: Vec<char> = Vec::new();
    let mut i: usize = 0;
    proof {
        assert(s@.skip(0) =~= s@);
        assert(r@ + strip_padding(s@) =~= strip_padding(s@));
    }
    while i < s.len()
        invariant
            i <= s@.len(),
            strip_padding(s@) == r@ + strip_padding(s@.skip(i as int)),
        decreases s@.len() - i,
    {
        if s.len() - i > 2 && s[i] == ' ' && s[i + 1] == ' ' && s[i + 2] == ' ' {
            proof {
                let rem = s@.skip(i as int);
                assert(rem[0] == ' ' && rem[1] == ' ' && rem[2] == ' ');
                assert(rem.skip(3) =~= s@.skip(i as int + 3));
            }
            i = i + 3;
        } else {
            let c = s[i];
            proof {
                let rem = s@.skip(i as int);
                assert(rem[0] == c);
                assert(rem.drop_first() =~= s@.skip(i as int + 1));
                if rem.len() < 3 {
                    // Too short for a padding run: both sides keep the head.
                    assert(strip_padding(rem.drop_first()) == rem.drop_first());
                    assert(strip_padding(rem) == rem);
                    assert(rem =~= seq![c] + rem.drop_first());
                } else {
                    assert(strip_padding(rem) == seq![c] + strip_padding(rem.drop_first()));
                }
                assert(r@ + (seq![c] + strip_padding(s@.skip(i as int + 1))) =~= (r@ + seq![c])
                    + strip_padding(s@.skip(i as int + 1)));
                assert(r@ + seq![c] =~= r@.push(c));
            }
            r.push(c);
            i = i + 1;
        }
    }
    proof {
        assert(s@.skip(s@.len() as int) =~= Seq::<char>::empty());
        assert(r@ + Seq::<char>::empty() =~= r@);
    }
    r
}

fn split_fields_exec(s: &Vec<char>) -> (r: Vec<Vec<char>>)
    ensures
        pieces_view(r@) == split_fields(s@),
{
    let mut out: Vec<Vec<char>> = Vec::new();
    let mut cur: Vec<char> = Vec::new();
    let mut i: usize = 0;
    proof {
        lemma_split_fields_len(s@);
        assert(s@.skip(0) =~= s@);
        assert(split_fields(s@) =~= seq![split_fields(s@)[0]] + split_fields(s@).skip(1));
        assert(pieces_view(out@) =~= Seq::<Seq<char>>::empty());
        assert(cur@ + split_fields(s@)[0] =~= split_fields(s@)[0]);
        assert(split_fields(s@) =~= pieces_view(out@) + seq![cur@ + split_fields(s@.skip(0))[0]]
            + split_fields(s@.skip(0)).skip(1));
    }
    while i < s.len()
        invariant
            i <= s@.len(),
            split_fields(s@) == pieces_view(out@) + seq![cur@ + split_fields(s@.skip(i as int))[0]]
                + split_fields(s@.skip(i as int)).skip(1),
        decreases s@.len() - i,
    {
        let ghost rem = s@.skip(i as int);
        let ghost rem1 = s@.skip(i as int + 1);
        proof {
            lemma_split_fields_len(rem1);
            assert(rem[0] == s@[i as int]);
            assert(rem.drop_first() =~= rem1);
        }
        let c = s[i];
        if c == ';' {
            proof {
                // The current piece is complete: the remainder splits as an
                // empty head piece followed by the pieces of the tail.
                assert(split_fields(rem) =~= seq![Seq::<char>::empty()] + split_fields(rem1));
                assert(split_fields(rem)[0] =~= Seq::<char>::empty());
                assert(cur@ + split_fields(rem)[0] =~= cur@);
                assert(split_fields(rem).skip(1) =~= split_fields(rem1));
                assert(split_fields(rem1) =~= seq![split_fields(rem1)[0]] + split_fields(
                    rem1,
                ).skip(1));
                assert(pieces_view(out@.push(cur)) =~= pieces_view(out@).push(cur@));
                assert(pieces_view(out@) + seq![cur@] + split_fields(rem1) =~= pieces_view(
                    out@.push(cur),
                ) + seq![Seq::<char>::empty() + split_fields(rem1)[0]] + split_fields(rem1).skip(
                    1,
                ));
            }
            out.push(cur);
            cur = Vec::new();
        } else {
            proof {
                let rest = split_fields(rem1);
                assert(split_fields(rem) =~= seq![seq![c] + rest[0]] + rest.skip(1));
                assert(cur@ + split_fields(rem)[0] =~= (cur@ + seq![c]) + rest[0]);
                assert(split_fields(rem).skip(1) =~= rest.skip(1));
                assert(cur@.push(c) =~= cur@ + seq![c]);
            }
            cur.push(c);
        }
        i = i + 1;
    }
    proof {
        assert(s@.skip(s@.len() as int) =~= Seq::<char>::empty());
        assert(split_fields(Seq::<char>::empty()) =~= seq![Seq::<char>::empty()]);
        assert(cur@ + Seq::<char>::empty() =~= cur@);
        assert(split_fields(s@) =~= pieces_view(out@) + seq![cur@]);
        assert(pieces_view(out@.push(cur)) =~= pieces_view(out@).push(cur@));
        assert(pieces_view(out@) + seq![cur@] =~= pieces_view(out@).push(cur@));
    }
    out.push(cur);
    out
}

fn trimmed_exec(p: &Vec<char>) -> (r: Vec<char>)
    ensures
        r@ == trimmed(p@),
{
    let mut lo: usize = 0;
    let mut hi: usize = p.len();
    proof {
        assert(p@.subrange(0, p@.len() as int) =~= p@);
    }
    while lo < hi && is_ws(p[lo])
        invariant
            lo <= hi <= p@.len(),
            trimmed(p@) == trimmed(p@.subrange(lo as int, hi as int)),
        decreases hi - lo,
    {
        proof {
            let sub = p@.subrange(lo as int, hi as int);
            assert(sub[0] == p@[lo as int]);
            assert(sub.drop_first() =~= p@.subrange(lo as int + 1, hi as int));
        }
        lo = lo + 1;
    }
    while hi > lo && is_ws(p[hi - 1])
        invariant
            lo <= hi <= p@.len(),
            trimmed(p@) == trimmed(p@.subrange(lo as int, hi as int)),
            lo == hi || !is_wschar(p@[lo as int]),
        decreases hi - lo,
    {
        proof {
            let sub = p@.subrange(lo as int, hi as int);
            assert(sub[0] == p@[lo as int]);
            assert(sub.last() == p@[hi as int - 1]);
            assert(sub.drop_last() =~= p@.subrange(lo as int, hi as int - 1));
        }
        hi = hi - 1;
    }
    proof {
        let sub = p@.subrange(lo as int, hi as int);
        if lo < hi {
            assert(sub[0] == p@[lo as int]);
            assert(sub.last() == p@[hi as int - 1]);
        }
        assert(trimmed(sub) == sub);
    }
    let mut r: Vec<char> = Vec::new();
    let mut i: usize = lo;
    while i < hi
        invariant
            lo <= i <= hi <= p@.len(),
            r@ == p@.subrange(lo as int, i as int),
            trimmed(p@) == p@.subrange(lo as int, hi as int),
        decreases hi - i,
    {
        r.push(p[i]);
        i = i + 1;
        proof {
            assert(p@.subrange(lo as int, i as int) =~= p@.subrange(lo as int, i as int - 1).push(
                p@[i as int - 1],
            ));
        }
    }
    r
}

fn clean_fields_exec(ps: &Vec<Vec<char>>) -> (r: Vec<String>)
    ensures
        fields_view(r@) == clean_fields(pieces_view(ps@)),
{
    let mut out: Vec<String> = Vec::new();
    let mut j: usize = 0;
    proof {
        assert(fields_view(out@) =~= clean_fields(pieces_view(ps@).take(0)));
    }
    while j < ps.len()
        invariant
            j <= ps@.len(),
            fields_view(out@) == clean_fields(pieces_view(ps@).take(j as int)),
        decreases ps@.len() - j,
    {
        let p = &ps[j];
        let kept: bool = if p.len() == 0 {
            false
        } else if p.len() == 1 && p[0] == ' ' {
            false
        } else {
            true
        };
        proof {
            let pv = pieces_view(ps@);
            assert(pv[j as int] == p@);
            if p@.len() == 0 {
                assert(p@ =~= Seq::<char>::empty());
            }
            if p@.len() == 1 && p@[0] == ' ' {
                assert(p@ =~= seq![' ']);
            }
            if p@ == Seq::<char>::empty() {
                assert(p@.len() == 0);
            }
            if p@ == seq![' '] {
                assert(p@.len() == 1 && p@[0] == ' ');
            }
            assert(kept == kept_field(p@));
            assert(pv.take(j as int + 1).drop_last() =~= pv.take(j as int));
            assert(pv.take(j as int + 1).last() == p@);
        }
        if kept {
            let t = trimmed_exec(p);
            let st = chars_to_string(&t);
            proof {
                assert(fields_view(out@.push(st)) =~= fields_view(out@).push(st@));
            }
            out.push(st);
        }
        j = j + 1;
    }
    proof {
        assert(pieces_view(ps@).take(ps@.len() as int) =~= pieces_view(ps@));
    }
    out
}

// ------------------------------------------------------------------
// The normalizer law: a text of newline-separated plain segments
// normalizes to exactly those segments, each trimmed.
// ------------------------------------------------------------------

pub open spec fn no_newline(s: Seq<char>) -> bool {
    forall|i: int| 0 <= i < s.len() ==> #[trigger] s[i] != '\n'
}

pub open spec fn no_semi(s: Seq<char>) -> bool {
    forall|i: int| 0 <= i < s.len() ==> #[trigger] s[i] != ';'
}

/// Every whitespace character is the plain space.
pub open spec fn space_only_ws(s: Seq<char>) -> bool {
    forall|i: int| 0 <= i < s.len() && is_wschar(#[trigger] s[i]) ==> s[i] == ' '
}

/// No two whitespace characters stand together.
pub open spec fn no_ws_run(s: Seq<char>) -> bool {
    forall|i: int|
        0 <= i < s.len() - 1 ==> !(is_wschar(#[trigger] s[i]) && is_wschar(s[i + 1]))
}

/// A segment as the law expects it: it trims to something non-empty, holds
/// no newline and no separator, its whitespace is the plain space alone,
/// and no two whitespace characters stand together.
pub open spec fn plain_segment(p: Seq<char>) -> bool {
    trimmed(p).len() > 0 && no_newline(p) && no_semi(p) && space_only_ws(p) && no_ws_run(p)
}

/// The segments joined by newlines, as they stand in a card's raw text.
pub open spec fn join_lines(segs: Seq<Seq<char>>) -> Seq<char>
    decreases segs.len(),
{
    if segs.len() == 0 {
        Seq::empty()
    } else if segs.len() == 1 {
        segs[0]
    } else {
        join_lines(segs.drop_last()) + seq!['\n'] + segs.last()
    }
}

/// The segments joined by the field separator.
pub open spec fn join_semi(segs: Seq<Seq<char>>) -> Seq<char>
    decreases segs.len(),
{
    if segs.len() == 0 {
        Seq::empty()
    } else if segs.len() == 1 {
        segs[0]
    } else {
        join_semi(segs.drop_last()) + seq![';'] + segs.last()
    }
}

/// Each segment trimmed, in order.
pub open spec fn trimmed_all(segs: Seq<Seq<char>>) -> Seq<Seq<char>> {
    segs.map_values(|p: Seq<char>| trimmed(p))
}

proof fn lemma_replace_concat(a: Seq<char>, b: Seq<char>)
    ensures
        replace_newlines(a + b) == replace_newlines(a) + replace_newlines(b),
{
    assert(replace_newlines(a + b) =~= replace_newlines(a) + replace_newlines(b));
}

proof fn lemma_replace_id(s: Seq<char>)
    requires
        no_newline(s),
    ensures
        replace_newlines(s) == s,
{
    assert(replace_newlines(s) =~= s);
}

proof fn lemma_join_replace(segs: Seq<Seq<char>>)
    requires
        forall|k: int| 0 <= k < segs.len() ==> no_newline(#[trigger] segs[k]),
    ensures
        replace_newlines(join_lines(segs)) == join_semi(segs),
    decreases segs.len(),
{
    if segs.len() == 0 {
        assert(replace_newlines(join_lines(segs)) =~= join_semi(segs));
    } else if segs.len() == 1 {
        lemma_replace_id(segs[0]);
    } else {
        let front = segs.drop_last();
        assert(forall|k: int| 0 <= k < front.len() ==> no_newline(#[trigger] front[k])) by {
            assert(forall|k: int| 0 <= k < front.len() ==> front[k] == segs[k]);
        }
        lemma_join_replace(front);
        lemma_replace_concat(join_lines(front) + seq!['\n'], segs.last());
        lemma_replace_concat(join_lines(front), seq!['\n']);
        lemma_replace_id(segs.last());
        assert(replace_newlines(seq!['\n']) =~= seq![';']);
    }
}

/// The three character-level predicates pass to any subrange.
proof fn lemma_props_subrange(s: Seq<char>, a: int, b: int)
    requires
        0 <= a <= b <= s.len(),
    ensures
        no_semi(s) ==> no_semi(s.subrange(a, b)),
        space_only_ws(s) ==> space_only_ws(s.subrange(a, b)),
        no_ws_run(s) ==> no_ws_run(s.subrange(a, b)),
{
    let t = s.subrange(a, b);
    assert(forall|i: int| 0 <= i < t.len() ==> #[trigger] t[i] == s[a + i]);
}

proof fn lemma_strip_id(s: Seq<char>)
    requires
        no_ws_run(s),
    ensures
        strip_padding(s) == s,
    decreases s.len(),
{
    if s.len() < 3 {
    } else {
        assert(!(s[0] == ' ' && s[1] == ' ' && s[2] == ' ')) by {
            if s[0] == ' ' && s[1] == ' ' {
                assert(is_wschar(s[0int]) && is_wschar(s[1int]));
            }
        }
        assert(s.drop_first() =~= s.subrange(1, s.len() as int));
        lemma_props_subrange(s, 1, s.len() as int);
        lemma_strip_id(s.drop_first());
        assert(seq![s[0]] + s.drop_first() =~= s);
    }
}

proof fn lemma_collapse_id(s: Seq<char>)
    requires
        space_only_ws(s),
        no_ws_run(s),
    ensures
        collapse_chars(s) == s,
    decreases s.len(),
{
    if s.len() == 0 {
        assert(collapse_chars(s) =~= s);
    } else {
        let s0 = s.drop_last();
        assert(s0 =~= s.subrange(0, s.len() - 1));
        lemma_props_subrange(s, 0, s.len() - 1);
        lemma_collapse_id(s0);
        let c = s.last();
        if s0.len() == 0 {
            assert(collapse_step(s0, c) == s0.push(c));
            assert(s0.push(c) =~= s);
        } else if is_wschar(c) {
            assert(s0.last() == s[s.len() - 2]);
            assert(!(is_wschar(s[s.len() - 2]) && is_wschar(s[s.len() - 2 + 1])));
            assert(!is_wschar(s0.last()));
            assert(c == ' ');
            assert(collapse_step(s0, c) == s0.push(' '));
            assert(s0.push(c) =~= s);
        } else {
            assert(collapse_step(s0, c) == s0.push(c));
            assert(s0.push(c) =~= s);
        }
    }
}

/// The trimmed string is a subrange of the string it came from.
proof fn lemma_trimmed_subrange(s: Seq<char>)
    ensures
        exists|a: int, b: int|
            0 <= a <= b <= s.len() && trimmed(s) == #[trigger] s.subrange(a, b),
    decreases s.len(),
{
    if s.len() == 0 {
        assert(trimmed(s) == s.subrange(0, 0)) by {
            assert(s.subrange(0, 0) =~= s);
        }
    } else if is_wschar(s[0]) {
        lemma_trimmed_subrange(s.drop_first());
        let (a, b) = choose|a: int, b: int|
            0 <= a <= b <= s.drop_first().len() && trimmed(s.drop_first())
                == #[trigger] s.drop_first().subrange(a, b);
        assert(s.drop_first().subrange(a, b) =~= s.subrange(a + 1, b + 1));
        assert(trimmed(s) == s.subrange(a + 1, b + 1));
    } else if is_wschar(s.last()) {
        lemma_trimmed_subrange(s.drop_last());
        let (a, b) = choose|a: int, b: int|
            0 <= a <= b <= s.drop_last().len() && trimmed(s.drop_last())
                == #[trigger] s.drop_last().subrange(a, b);
        assert(s.drop_last().subrange(a, b) =~= s.subrange(a, b));
        assert(trimmed(s) == s.subrange(a, b));
    } else {
        assert(trimmed(s) == s.subrange(0, s.len() as int)) by {
            assert(s.subrange(0, s.len() as int) =~= s);
        }
    }
}

proof fn lemma_trimmed_props(s: Seq<char>)
    ensures
        no_semi(s) ==> no_semi(trimmed(s)),
        space_only_ws(s) ==> space_only_ws(trimmed(s)),
        no_ws_run(s) ==> no_ws_run(trimmed(s)),
{
    lemma_trimmed_subrange(s);
    let (a, b) = choose|a: int, b: int|
        0 <= a <= b <= s.len() && trimmed(s) == #[trigger] s.subrange(a, b);
    lemma_props_subrange(s, a, b);
}

proof fn lemma_trimmed_cons_ws(c: char, p: Seq<char>)
    requires
        is_wschar(c),
    ensures
        trimmed(seq![c] + p) == trimmed(p),
{
    let s = seq![c] + p;
    assert(s.len() > 0 && s[0] == c);
    assert(s.drop_first() =~= p);
}

proof fn lemma_trimmed_snoc_ws(p: Seq<char>, c: char)
    requires
        is_wschar(c),
    ensures
        trimmed(p.push(c)) == trimmed(p),
    decreases p.len(),
{
    let s = p.push(c);
    if p.len() == 0 {
        assert(s[0] == c);
        assert(s.drop_first() =~= Seq::<char>::empty());
        assert(trimmed(s) == trimmed(Seq::<char>::empty()));
        assert(trimmed(Seq::<char>::empty()) == Seq::<char>::empty());
        assert(trimmed(p) == p);
    } else if is_wschar(p[0]) {
        assert(s[0] == p[0]);
        assert(s.drop_first() =~= p.drop_first().push(c));
        lemma_trimmed_snoc_ws(p.drop_first(), c);
        assert(trimmed(s) == trimmed(p.drop_first().push(c)));
        assert(trimmed(p) == trimmed(p.drop_first()));
    } else {
        assert(s[0] == p[0]);
        assert(s.last() == c);
        assert(s.drop_last() =~= p);
        assert(trimmed(s) == trimmed(p));
    }
}

/// A non-empty first piece starts where the string starts.
proof fn lemma_split_first_piece(x: Seq<char>)
    ensures
        split_fields(x)[0].len() > 0 ==> x.len() > 0 && split_fields(x)[0][0] == x[0],
{
    if x.len() == 0 {
    } else if x[0] == ';' {
        assert(split_fields(x)[0] =~= Seq::<char>::empty());
    } else {
        let rest = split_fields(x.drop_first());
        assert(split_fields(x)[0] == seq![x[0]] + rest[0]);
        assert((seq![x[0]] + rest[0])[0] == x[0]);
    }
}

/// A string without the separator is its own single piece.
proof fn lemma_split_no_semi(p: Seq<char>)
    requires
        no_semi(p),
    ensures
        split_fields(p) == seq![p],
    decreases p.len(),
{
    if p.len() == 0 {
        assert(p =~= Seq::<char>::empty());
        assert(split_fields(p) =~= seq![p]);
    } else {
        assert(p[0] != ';');
        assert(p.drop_first() =~= p.subrange(1, p.len() as int));
        lemma_props_subrange(p, 1, p.len() as int);
        lemma_split_no_semi(p.drop_first());
        let rest = split_fields(p.drop_first());
        assert(rest == seq![p.drop_first()]);
        assert(rest.skip(1) =~= Seq::<Seq<char>>::empty());
        assert(seq![p[0]] + rest[0] =~= p);
        assert(split_fields(p) == seq![seq![p[0]] + rest[0]] + rest.skip(1));
        assert(seq![seq![p[0]] + rest[0]] + rest.skip(1) =~= seq![seq![p[0]] + rest[0]]);
        assert(seq![seq![p[0]] + rest[0]] =~= seq![p]);
    }
}

/// Splitting around one separator splits the two sides independently.
proof fn lemma_split_join(x: Seq<char>, y: Seq<char>)
    ensures
        split_fields(x + seq![';'] + y) == split_fields(x) + split_fields(y),
    decreases x.len(),
{
    let s = x + seq![';'] + y;
    if x.len() == 0 {
        assert(s[0] == ';');
        assert(s.drop_first() =~= y);
        assert(split_fields(x) =~= seq![Seq::<char>::empty()]);
        assert(split_fields(s) == seq![Seq::<char>::empty()] + split_fields(y));
        assert(split_fields(s) =~= split_fields(x) + split_fields(y));
    } else if x[0] == ';' {
        assert(s[0] == ';');
        assert(s.drop_first() =~= x.drop_first() + seq![';'] + y);
        lemma_split_join(x.drop_first(), y);
        assert(split_fields(s) == seq![Seq::<char>::empty()] + (split_fields(x.drop_first())
            + split_fields(y)));
        assert(split_fields(x) == seq![Seq::<char>::empty()] + split_fields(x.drop_first()));
        assert(split_fields(s) =~= split_fields(x) + split_fields(y));
    } else {
        assert(s[0] == x[0]);
        assert(s.drop_first() =~= x.drop_first() + seq![';'] + y);
        lemma_split_join(x.drop_first(), y);
        let rx = split_fields(x.drop_first());
        let ry = split_fields(y);
        lemma_split_fields_len(x.drop_first());
        lemma_split_fields_len(y);
        assert((rx + ry)[0] == rx[0]);
        assert((rx + ry).skip(1) =~= rx.skip(1) + ry);
        assert(split_fields(s) == seq![seq![s[0]] + (rx + ry)[0]] + (rx + ry).skip(1));
        assert(split_fields(x) == seq![seq![x[0]] + rx[0]] + rx.skip(1));
        assert(split_fields(s) =~= split_fields(x) + split_fields(y));
    }
}

/// A single piece is the whole string.
proof fn lemma_split_len_one(x: Seq<char>)
    ensures
        split_fields(x).len() == 1 ==> split_fields(x)[0] == x,
    decreases x.len(),
{
    if x.len() == 0 {
        assert(split_fields(x)[0] =~= x);
    } else if x[0] == ';' {
        lemma_split_fields_len(x.drop_first());
    } else {
        lemma_split_len_one(x.drop_first());
        lemma_split_fields_len(x.drop_first());
        let rest = split_fields(x.drop_first());
        if split_fields(x).len() == 1 {
            assert(rest.skip(1).len() == 0);
            assert(rest.len() == 1);
            assert(rest[0] == x.drop_first());
            assert(seq![x[0]] + x.drop_first() =~= x);
        }
    }
}

/// A non-empty last piece ends where the string ends.
proof fn lemma_split_last_piece(x: Seq<char>)
    ensures
        split_fields(x).last().len() > 0 ==> x.len() > 0 && split_fields(x).last().last()
            == x.last(),
    decreases x.len(),
{
    if x.len() == 0 {
        assert(split_fields(x).last() =~= Seq::<char>::empty());
    } else if x[0] == ';' {
        let rest = split_fields(x.drop_first());
        lemma_split_fields_len(x.drop_first());
        lemma_split_last_piece(x.drop_first());
        assert(split_fields(x).last() == rest.last());
        if rest.last().len() > 0 {
            assert(x.drop_first().len() > 0);
            assert(x.drop_first().last() == x.last());
        }
    } else {
        let rest = split_fields(x.drop_first());
        lemma_split_fields_len(x.drop_first());
        lemma_split_last_piece(x.drop_first());
        lemma_split_len_one(x.drop_first());
        if rest.len() >= 2 {
            assert(split_fields(x).last() == rest.skip(1).last());
            assert(rest.skip(1).last() == rest.last());
            if rest.last().len() > 0 {
                assert(x.drop_first().len() > 0) by {
                    if x.drop_first().len() == 0 {
                        assert(split_fields(x.drop_first()).len() == 1);
                    }
                }
                assert(x.drop_first().last() == x.last());
            }
        } else {
            assert(rest.len() == 1);
            assert(rest[0] == x.drop_first());
            assert(split_fields(x).last() == seq![x[0]] + rest[0]);
            if x.drop_first().len() > 0 {
                assert((seq![x[0]] + x.drop_first()).last() == x.drop_first().last());
                assert(x.drop_first().last() == x.last());
            } else {
                assert(x.len() == 1);
                assert((seq![x[0]] + rest[0]) =~= seq![x[0]]);
                assert((seq![x[0]]).last() == x[0]);
                assert(x.last() == x[0]);
            }
        }
    }
}

/// Appending one ordinary character extends the last piece.
proof fn lemma_split_snoc(x: Seq<char>, c: char)
    requires
        c != ';',
    ensures
        split_fields(x.push(c)) == split_fields(x).drop_last().push(
            split_fields(x).last().push(c),
        ),
    decreases x.len(),
{
    let s = x.push(c);
    if x.len() == 0 {
        assert(s[0] == c);
        assert(s.drop_first() =~= Seq::<char>::empty());
        assert(split_fields(s.drop_first()) == seq![Seq::<char>::empty()]);
        assert(split_fields(s) == seq![seq![c] + Seq::<char>::empty()] + split_fields(
            s.drop_first(),
        ).skip(1));
        assert(split_fields(x) == seq![Seq::<char>::empty()]);
        assert(split_fields(x).last() =~= Seq::<char>::empty());
        assert(split_fields(s) =~= split_fields(x).drop_last().push(
            split_fields(x).last().push(c),
        ));
    } else if x[0] == ';' {
        assert(s[0] == ';');
        assert(s.drop_first() =~= x.drop_first().push(c));
        lemma_split_snoc(x.drop_first(), c);
        lemma_split_fields_len(x.drop_first());
        let r = split_fields(x.drop_first());
        assert(split_fields(s) == seq![Seq::<char>::empty()] + r.drop_last().push(
            r.last().push(c),
        ));
        assert(split_fields(x) == seq![Seq::<char>::empty()] + r);
        assert(split_fields(x).last() == r.last());
        assert(split_fields(x).drop_last() =~= seq![Seq::<char>::empty()] + r.drop_last());
        assert(split_fields(s) =~= split_fields(x).drop_last().push(
            split_fields(x).last().push(c),
        ));
    } else {
        assert(s[0] == x[0]);
        assert(s.drop_first() =~= x.drop_first().push(c));
        lemma_split_snoc(x.drop_first(), c);
        lemma_split_fields_len(x.drop_first());
        let r = split_fields(x.drop_first());
        let rp = r.drop_last().push(r.last().push(c));
        assert(split_fields(s) == seq![seq![x[0]] + rp[0]] + rp.skip(1));
        assert(split_fields(x) == seq![seq![x[0]] + r[0]] + r.skip(1));
        if r.len() == 1 {
            assert(rp =~= seq![r[0].push(c)]);
            assert(rp[0] == r[0].push(c));
            assert(rp.skip(1) =~= Seq::<Seq<char>>::empty());
            assert(r.skip(1) =~= Seq::<Seq<char>>::empty());
            assert(seq![x[0]] + r[0].push(c) =~= (seq![x[0]] + r[0]).push(c));
            assert(split_fields(x).last() == seq![x[0]] + r[0]);
            assert(split_fields(x).drop_last() =~= Seq::<Seq<char>>::empty());
            assert(split_fields(s) =~= split_fields(x).drop_last().push(
                split_fields(x).last().push(c),
            ));
        } else {
            assert(rp[0] == r[0]);
            assert(rp.skip(1) =~= r.skip(1).drop_last().push(r.last().push(c)));
            assert(split_fields(x).last() == r.last());
            assert(split_fields(x).drop_last() =~= seq![seq![x[0]] + r[0]] + r.skip(
                1,
            ).drop_last());
            assert(split_fields(s) =~= split_fields(x).drop_last().push(
                split_fields(x).last().push(c),
            ));
        }
    }
}

/// Two interchangeable head pieces leave the cleaned fields unchanged.
proof fn lemma_clean_head_equiv(a: Seq<char>, b: Seq<char>, t: Seq<Seq<char>>)
    requires
        kept_field(a) == kept_field(b),
        trimmed(a) == trimmed(b),
    ensures
        clean_fields(seq![a] + t) == clean_fields(seq![b] + t),
    decreases t.len(),
{
    if t.len() == 0 {
        assert((seq![a] + t) =~= seq![a]);
        assert((seq![b] + t) =~= seq![b]);
        assert(seq![a].drop_last() =~= Seq::<Seq<char>>::empty());
        assert(seq![b].drop_last() =~= Seq::<Seq<char>>::empty());
        assert(seq![a].last() == a);
        assert(seq![b].last() == b);
    } else {
        assert((seq![a] + t).drop_last() =~= seq![a] + t.drop_last());
        assert((seq![b] + t).drop_last() =~= seq![b] + t.drop_last());
        assert((seq![a] + t).last() == t.last());
        assert((seq![b] + t).last() == t.last());
        lemma_clean_head_equiv(a, b, t.drop_last());
    }
}

/// Trimming the whole string first changes nothing about the cleaned
/// fields, as each piece is trimmed on its own anyway.
proof fn lemma_clean_split_trimmed(s: Seq<char>)
    requires
        space_only_ws(s),
        no_ws_run(s),
    ensures
        clean_fields(split_fields(trimmed(s))) == clean_fields(split_fields(s)),
    decreases s.len(),
{
    if s.len() == 0 {
    } else if is_wschar(s[0]) {
        let s1 = s.drop_first();
        assert(s1 =~= s.subrange(1, s.len() as int));
        lemma_props_subrange(s, 1, s.len() as int);
        lemma_clean_split_trimmed(s1);
        assert(trimmed(s) == trimmed(s1));
        assert(s[0] == ' ');
        assert(s[0] != ';');
        let r = split_fields(s1);
        lemma_split_fields_len(s1);
        lemma_split_first_piece(s1);
        let h = r[0];
        assert(split_fields(s) == seq![seq![' '] + h] + r.skip(1));
        // The filter and the per-piece trim treat the padded head piece and
        // the bare one alike.
        assert(kept_field(seq![' '] + h) == kept_field(h)) by {
            if h.len() == 0 {
                assert(h =~= Seq::<char>::empty());
                assert(seq![' '] + h =~= seq![' ']);
            } else {
                assert(h[0] == s1[0]);
                assert(!(is_wschar(s[0int]) && is_wschar(s[1int])));
                assert(!is_wschar(s1[0]));
                assert(h != seq![' ']) by {
                    if h == seq![' '] {
                        assert(h[0] == ' ');
                        assert(is_wschar(' '));
                    }
                }
                assert((seq![' '] + h).len() >= 2);
                assert(kept_field(h));
                assert(kept_field(seq![' '] + h));
            }
        }
        assert(is_wschar(' '));
        lemma_trimmed_cons_ws(' ', h);
        lemma_clean_head_equiv(seq![' '] + h, h, r.skip(1));
        assert(seq![h] + r.skip(1) =~= r);
        assert(clean_fields(split_fields(s)) == clean_fields(split_fields(s1)));
    } else if is_wschar(s.last()) {
        let s0 = s.drop_last();
        assert(s0 =~= s.subrange(0, s.len() - 1));
        lemma_props_subrange(s, 0, s.len() - 1);
        lemma_clean_split_trimmed(s0);
        assert(trimmed(s) == trimmed(s0));
        assert(s.last() == ' ');
        assert(s.len() >= 2) by {
            if s.len() == 1 {
                assert(s.last() == s[0]);
            }
        }
        assert(s0.push(' ') =~= s);
        lemma_split_snoc(s0, ' ');
        let r = split_fields(s0);
        lemma_split_fields_len(s0);
        lemma_split_last_piece(s0);
        let q = r.last();
        assert(kept_field(q.push(' ')) == kept_field(q)) by {
            if q.len() == 0 {
                assert(q =~= Seq::<char>::empty());
                assert(q.push(' ') =~= seq![' ']);
            } else {
                assert(q.last() == s0.last());
                assert(s0.last() == s[s.len() - 2]);
                assert(!(is_wschar(s[s.len() - 2]) && is_wschar(s[s.len() - 2 + 1])));
                assert(!is_wschar(q.last()));
                assert(q != seq![' ']) by {
                    if q == seq![' '] {
                        assert(q.last() == ' ');
                        assert(is_wschar(' '));
                    }
                }
                assert(q.push(' ').len() >= 2);
                assert(kept_field(q));
                assert(kept_field(q.push(' ')));
            }
        }
        assert(is_wschar(' '));
        lemma_trimmed_snoc_ws(q, ' ');
        // The last piece decides alone: both sides share the earlier pieces.
        assert(split_fields(s) == r.drop_last().push(q.push(' ')));
        assert(r.drop_last().push(q.push(' ')).drop_last() =~= r.drop_last());
        assert(r.drop_last().push(q.push(' ')).last() == q.push(' '));
        assert(r.drop_last().push(q) =~= r);
        assert(clean_fields(split_fields(s)) == clean_fields(split_fields(s0)));
    } else {
        assert(trimmed(s) == s);
    }
}

/// The joined segments keep the whitespace discipline: the separator is no
/// whitespace, so runs cannot form across a boundary.
proof fn lemma_join_semi_props(segs: Seq<Seq<char>>)
    requires
        forall|k: int| 0 <= k < segs.len() ==> plain_segment(#[trigger] segs[k]),
    ensures
        space_only_ws(join_semi(segs)),
        no_ws_run(join_semi(segs)),
    decreases segs.len(),
{
    if segs.len() == 0 {
    } else if segs.len() == 1 {
        assert(plain_segment(segs[0]));
    } else {
        let front = segs.drop_last();
        assert(forall|k: int| 0 <= k < front.len() ==> plain_segment(#[trigger] front[k])) by {
            assert(forall|k: int| 0 <= k < front.len() ==> front[k] == segs[k]);
        }
        lemma_join_semi_props(front);
        assert(plain_segment(segs.last()));
        let a = join_semi(front);
        let p = segs.last();
        let s = a + seq![';'] + p;
        let al = a.len() as int;
        assert(!is_wschar(';'));
        assert forall|i: int| 0 <= i < s.len() && is_wschar(#[trigger] s[i]) implies s[i]
            == ' ' by {
            if i < al {
                assert(s[i] == a[i]);
            } else if i == al {
                assert(s[i] == ';');
            } else {
                assert(s[i] == p[i - al - 1]);
            }
        }
        assert forall|i: int| 0 <= i < s.len() - 1 implies !(is_wschar(#[trigger] s[i])
            && is_wschar(s[i + 1])) by {
            if i + 1 < al {
                assert(s[i] == a[i] && s[i + 1] == a[i + 1]);
            } else if i + 1 == al {
                assert(s[i + 1] == ';');
            } else if i == al {
                assert(s[i] == ';');
            } else {
                assert(s[i] == p[i - al - 1] && s[i + 1] == p[i - al]);
            }
        }
    }
}

/// Splitting the joined segments gives back exactly the segments.
proof fn lemma_split_join_semi(segs: Seq<Seq<char>>)
    requires
        segs.len() >= 1,
        forall|k: int| 0 <= k < segs.len() ==> no_semi(#[trigger] segs[k]),
    ensures
        split_fields(join_semi(segs)) == segs,
    decreases segs.len(),
{
    if segs.len() == 1 {
        lemma_split_no_semi(segs[0]);
        assert(seq![segs[0]] =~= segs);
    } else {
        let front = segs.drop_last();
        assert(forall|k: int| 0 <= k < front.len() ==> no_semi(#[trigger] front[k])) by {
            assert(forall|k: int| 0 <= k < front.len() ==> front[k] == segs[k]);
        }
        lemma_split_join_semi(front);
        lemma_split_no_semi(segs.last());
        lemma_split_join(join_semi(front), segs.last());
        assert(front + seq![segs.last()] =~= segs);
    }
}

/// Cleaning the raw segments trims each: every plain segment passes the
/// filter.
proof fn lemma_clean_plain(segs: Seq<Seq<char>>)
    requires
        forall|k: int| 0 <= k < segs.len() ==> plain_segment(#[trigger] segs[k]),
    ensures
        clean_fields(segs) == trimmed_all(segs),
    decreases segs.len(),
{
    if segs.len() == 0 {
        assert(clean_fields(segs) =~= trimmed_all(segs));
    } else {
        let front = segs.drop_last();
        assert(forall|k: int| 0 <= k < front.len() ==> plain_segment(#[trigger] front[k])) by {
            assert(forall|k: int| 0 <= k < front.len() ==> front[k] == segs[k]);
        }
        lemma_clean_plain(front);
        let p = segs.last();
        assert(plain_segment(p));
        assert(kept_field(p)) by {
            assert(trimmed(Seq::<char>::empty()).len() == 0);
            assert(seq![' '].drop_first() =~= Seq::<char>::empty());
            assert(is_wschar(' '));
            assert(trimmed(seq![' ']) == trimmed(Seq::<char>::empty()));
            if p == Seq::<char>::empty() || p == seq![' '] {
                assert(trimmed(p).len() == 0);
            }
        }
        assert(trimmed_all(segs) =~= trimmed_all(front).push(trimmed(p)));
    }
}

/// The normalizer law: a raw text of newline-separated plain segments
/// normalizes to exactly those segments, in order, each trimmed.
pub proof fn lemma_normalizer_segments(segs: Seq<Seq<char>>)
    requires
        forall|k: int| 0 <= k < segs.len() ==> plain_segment(#[trigger] segs[k]),
    ensures
        normalize_spec(join_lines(segs)) == trimmed_all(segs),
{
    if segs.len() == 0 {
        let e = Seq::<char>::empty();
        assert(join_lines(segs) == e);
        assert(replace_newlines(e) =~= e);
        assert(strip_padding(e) == e);
        assert(trimmed(e) == e);
        assert(collapse_chars(e) =~= e);
        assert(split_fields(e) == seq![e]);
        assert(seq![e].drop_last() =~= Seq::<Seq<char>>::empty());
        assert(clean_fields(seq![e].drop_last()) =~= Seq::<Seq<char>>::empty());
        assert(!kept_field(e));
        assert(clean_fields(seq![e]) =~= Seq::<Seq<char>>::empty());
        assert(trimmed_all(segs) =~= Seq::<Seq<char>>::empty());
    } else {
        assert(forall|k: int|
            0 <= k < segs.len() ==> no_newline(#[trigger] segs[k]) && no_semi(segs[k]));
        lemma_join_replace(segs);
        let j = join_semi(segs);
        lemma_join_semi_props(segs);
        lemma_strip_id(j);
        lemma_trimmed_props(j);
        lemma_collapse_id(trimmed(j));
        lemma_clean_split_trimmed(j);
        lemma_split_join_semi(segs);
        lemma_clean_plain(segs);
    }
}

/// The normalizer: the raw text of one card reduced to its ordered list of
/// trimmed, non-empty fields.
pub fn normalize(raw: &str) -> (fields: Vec<String>)
    ensures
        fields_view(fields@) == normalize_spec(raw@),
{
    let cs = str_chars(raw);
    let replaced = replace_newlines_exec(&cs);
    let stripped = strip_padding_exec(&replaced);
    let joined = chars_to_string(&stripped);
    let collapsed = collapse_ws(joined.as_str());
    let cs2 = str_chars(collapsed.as_str());
    let pieces = split_fields_exec(&cs2);
    clean_fields_exec(&pieces)
}

} // verus!
