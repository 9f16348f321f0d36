//! Small text and sequence helpers: string equality, comment stripping
//! for puzzle files, and the spiral ("snail") arrangement used for the
//! canonical goal board.

use vstd::prelude::*;

verus! {

use vstd::string::StrSliceExecFns;
use vstd::string::StringExecFns;

/// Whether two string slices hold the same characters.
pub fn str_eq(a: &str, b: &str) -> (r: bool)
    ensures
        r == (a@ == b@),
{
    let la = a.unicode_len();
    let lb = b.unicode_len();
    if la != lb {
        return false;
    }
    let mut i: usize = 0;
    while i < la
        invariant
            0 <= i <= la,
            la == a@.len(),
            la == b@.len(),
            forall|j: int| 0 <= j < i ==> a@[j] == b@[j],
        decreases la - i,
    {
        if a.get_char(i) != b.get_char(i) {
            return false;
        }
        i += 1;
    }
    proof {
        assert(a@ =~= b@);
    }
    true
}

/// Relies on String::push: appends exactly the given character.
#[verifier::external_body]
fn push_char(s: &mut String, c: char)
    ensures
        final(s)@ == old(s)@.push(c),
{
    s.push(c);
}

/// Builds a string holding exactly the given characters.
pub fn string_of_chars(v: &Vec<char>) -> (r: String)
    ensures
        r@ == v@,
{
    let mut r = String::new();
    let mut i: usize = 0;
    while i < v.len()
        invariant
            0 <= i <= v@.len(),
            r@ == v@.subrange(0, i as int),
        decreases v@.len() - i,
    {
        push_char(&mut r, v[i]);
        proof {
            assert(r@ =~= v@.subrange(0, i + 1));
        }
        i += 1;
    }
    proof {
        assert(v@.subrange(0, v@.len() as int) =~= v@);
    }
    r
}

/// The characters of a string slice, in order.
pub fn chars_of(s: &str) -> (r: Vec<char>)
    ensures
        r@ == s@,
{
    let n = s.unicode_len();
    let mut r: Vec<char> = Vec::new();
    let mut i: usize = 0;
    while i < n
        invariant
            0 <= i <= n,
            n == s@.len(),
            r@ == s@.subrange(0, i as int),
        decreases n - i,
    {
        r.push(s.get_char(i));
        proof {
            assert(r@ =~= s@.subrange(0, i + 1));
        }
        i += 1;
    }
    proof {
        assert(s@.subrange(0, s@.len() as int) =~= s@);
    }
    r
}

/// The whitespace characters the text helpers strip: ASCII blanks.
pub open spec fn is_space_char(c: char) -> bool {
    c == ' ' || c == '\t' || c == '\n' || c == '\r' || c == '\u{b}' || c == '\u{c}'
}

/// `s` with leading whitespace removed.
pub open spec fn trim_front(s: Seq<char>) -> Seq<char>
    decreases s.len(),
{
    if s.len() > 0 && is_space_char(s[0]) {
        trim_front(s.drop_first())
    } else {
        s
    }
}

/// `s` with trailing whitespace removed.
pub open spec fn trim_back(s: Seq<char>) -> Seq<char>
    decreases s.len(),
{
    if s.len() > 0 && is_space_char(s.last()) {
        trim_back(s.drop_last())
    } else {
        s
    }
}

/// `s` with whitespace removed from both ends.
pub open spec fn spec_trim(s: Seq<char>) -> Seq<char> {
    trim_back(trim_front(s))
}

/// Whether pattern `p` occurs in `s` starting at position `i`.
pub open spec fn match_at(s: Seq<char>, p: Seq<char>, i: int) -> bool {
    0 <= i && i + p.len() <= s.len() && s.subrange(i, i + p.len()) == p
}

/// The first position at or after `i` where `p` occurs in `s`.
pub open spec fn find_from(s: Seq<char>, p: Seq<char>, i: int) -> Option<int>
    decreases s.len() + 1 - i,
{
    if i < 0 || i + p.len() > s.len() {
        None
    } else if match_at(s, p, i) {
        Some(i)
    } else {
        find_from(s, p, i + 1)
    }
}

/// The first occurrence of `p` in `s`, if any.
pub open spec fn spec_find(s: Seq<char>, p: Seq<char>) -> Option<int> {
    find_from(s, p, 0)
}

/// A line with one trailing carriage return removed.
pub open spec fn strip_cr(l: Seq<char>) -> Seq<char> {
    if l.len() > 0 && l.last() == '\r' {
        l.drop_last()
    } else {
        l
    }
}

/// The first newline at or after position `i`, if any.
pub open spec fn find_nl_from(s: Seq<char>, i: int) -> Option<int>
    decreases s.len() - i,
{
    if i < 0 || i >= s.len() {
        None
    } else if s[i] == '\n' {
        Some(i)
    } else {
        find_nl_from(s, i + 1)
    }
}

/// The text split at newlines, each line without its line break (and
/// without one trailing carriage return); a trailing newline yields no
/// empty final line.
pub open spec fn split_lines(s: Seq<char>) -> Seq<Seq<char>>
    decreases s.len(),
{
    if s.len() == 0 {
        Seq::empty()
    } else {
        match find_nl_from(s, 0) {
            None => seq![strip_cr(s)],
            Some(i) => if 0 <= i < s.len() {
                seq![strip_cr(s.subrange(0, i))] + split_lines(s.subrange(i + 1, s.len() as int))
            } else {
                seq![strip_cr(s)]
            },
        }
    }
}

/// What comment stripping keeps of one line: the trimmed line up to the
/// first occurrence of the comment pattern, trimmed again; nothing when
/// the line is empty or starts with the pattern.
pub open spec fn clean_line(line: Seq<char>, pat: Seq<char>) -> Option<Seq<char>> {
    let t = spec_trim(line);
    if match_at(t, pat, 0) || t.len() == 0 {
        None
    } else {
        match spec_find(t, pat) {
            Some(i) => Some(spec_trim(t.subrange(0, i))),
            None => Some(t),
        }
    }
}

/// Comment stripping applied to a sequence of lines.
pub open spec fn clean_lines_of(ls: Seq<Seq<char>>, pat: Seq<char>) -> Seq<Seq<char>>
    decreases ls.len(),
{
    if ls.len() == 0 {
        Seq::empty()
    } else {
        (match clean_line(ls[0], pat) {
            Some(x) => seq![x],
            None => Seq::empty(),
        }) + clean_lines_of(ls.drop_first(), pat)
    }
}

/// The cleaned, non-empty, comment-free lines of a text.
pub open spec fn spec_clean_lines(s: Seq<char>, pat: Seq<char>) -> Seq<Seq<char>> {
    clean_lines_of(split_lines(s), pat)
}

/// Trimming is `subrange` between the first and last non-blank.
proof fn lemma_trim_front_at(s: Seq<char>, a: int)
    requires
        0 <= a <= s.len(),
        forall|j: int| 0 <= j < a ==> is_space_char(#[trigger] s[j]),
        a < s.len() ==> !is_space_char(s[a]),
    ensures
        trim_front(s) == s.subrange(a, s.len() as int),
    decreases a,
{
    if a == 0 {
        if s.len() > 0 && is_space_char(s[0]) {
            assert(false);
        }
        assert(s.subrange(0, s.len() as int) =~= s);
    } else {
        assert(is_space_char(s[0]));
        let rest = s.drop_first();
        assert(forall|j: int| 0 <= j < a - 1 ==> is_space_char(#[trigger] rest[j]));
        lemma_trim_front_at(rest, a - 1);
        assert(rest.subrange(a - 1, rest.len() as int) =~= s.subrange(a, s.len() as int));
    }
}

/// Back-trimming is `subrange` up to past the last non-blank.
proof fn lemma_trim_back_at(s: Seq<char>, b: int)
    requires
        0 <= b <= s.len(),
        forall|j: int| b <= j < s.len() ==> is_space_char(#[trigger] s[j]),
        b > 0 ==> !is_space_char(s[b - 1]),
    ensures
        trim_back(s) == s.subrange(0, b),
    decreases s.len() - b,
{
    if b == s.len() {
        if s.len() > 0 && is_space_char(s.last()) {
            assert(false);
        }
        assert(s.subrange(0, s.len() as int) =~= s);
    } else {
        assert(is_space_char(s.last()));
        let rest = s.drop_last();
        assert(forall|j: int| b <= j < rest.len() ==> is_space_char(#[trigger] rest[j]));
        lemma_trim_back_at(rest, b);
        assert(rest.subrange(0, b) =~= s.subrange(0, b));
    }
}

/// Whether `c` is one of the blanks the text helpers strip.
pub fn is_space(c: char) -> (r: bool)
    ensures
        r == is_space_char(c),
{
    c == ' ' || c == '\t' || c == '\n' || c == '\r' || c == '\u{b}' || c == '\u{c}'
}

/// The slice of `v` between `from` and `to`.
pub fn sub_chars(v: &Vec<char>, from: usize, to: usize) -> (r: Vec<char>)
    requires
        0 <= from <= to <= v@.len(),
    ensures
        r@ == v@.subrange(from as int, to as int),
{
    let mut r: Vec<char> = Vec::new();
    let mut i = from;
    while i < to
        invariant
            from <= i <= to <= v@.len(),
            r@ == v@.subrange(from as int, i as int),
        decreases to - i,
    {
        r.push(v[i]);
        proof {
            assert(r@ =~= v@.subrange(from as int, i + 1));
        }
        i += 1;
    }
    r
}

/// Both-ends trimming of a character vector.
fn trim_chars(v: &Vec<char>) -> (r: Vec<char>)
    ensures
        r@ == spec_trim(v@),
{
    let n = v.len();
    let mut a: usize = 0;
    while a < n && is_space(v[a])
        invariant
            0 <= a <= n,
            n == v@.len(),
            forall|j: int| 0 <= j < a ==> is_space_char(#[trigger] v@[j]),
        decreases n - a,
    {
        a += 1;
    }
    proof {
        lemma_trim_front_at(v@, a as int);
    }
    let ghost f = trim_front(v@);
    let mut b: usize = n;
    while b > a && is_space(v[b - 1])
        invariant
            a <= b <= n,
            n == v@.len(),
            forall|j: int| b <= j < n ==> is_space_char(#[trigger] v@[j]),
            a < n ==> !is_space_char(v@[a as int]),
            f == v@.subrange(a as int, n as int),
        decreases b,
    {
        b -= 1;
    }
    proof {
        assert(forall|j: int| b - a <= j < f.len() ==> is_space_char(#[trigger] f[j]));
        if b > a {
            assert(f[b - a - 1] == v@[b - 1]);
        }
        lemma_trim_back_at(f, b - a);
        assert(f.subrange(0, b - a) =~= v@.subrange(a as int, b as int));
    }
    sub_chars(v, a, b)
}

/// Whether `p` occurs in `v` starting at `i`.
fn match_chars_at(v: &Vec<char>, p: &Vec<char>, i: usize) -> (r: bool)
    requires
        i + p@.len() <= v@.len(),
    ensures
        r == match_at(v@, p@, i as int),
{
    let vl = v.len();
    let mut j: usize = 0;
    while j < p.len()
        invariant
            0 <= j <= p@.len(),
            i + p@.len() <= v@.len(),
            vl == v@.len(),
            forall|k: int| 0 <= k < j ==> v@[i + k] == p@[k],
        decreases p@.len() - j,
    {
        if v[i + j] != p[j] {
            proof {
                assert(v@.subrange(i as int, i + p@.len())[j as int] == v@[i + j]);
            }
            return false;
        }
        j += 1;
    }
    proof {
        assert(v@.subrange(i as int, i + p@.len()) =~= p@);
    }
    true
}

/// First occurrence of `p` in `v`, if any.
fn find_chars(v: &Vec<char>, p: &Vec<char>) -> (r: Option<usize>)
    ensures
        (match r {
            Some(i) => spec_find(v@, p@) == Some(i as int) && i + p@.len() <= v@.len(),
            None => spec_find(v@, p@) is None,
        }),
{
    let vl = v.len();
    let pl = p.len();
    if pl > vl {
        return None;
    }
    if pl == 0 {
        proof {
            assert(v@.subrange(0, 0) =~= p@);
        }
        return Some(0);
    }
    let mut i: usize = 0;
    while i <= vl - pl
        invariant
            0 <= i <= vl - pl + 1,
            1 <= pl <= vl,
            vl == v@.len(),
            pl == p@.len(),
            forall|j: int| 0 <= j < i ==> !match_at(v@, p@, j),
            find_from(v@, p@, 0) == find_from(v@, p@, i as int),
        decreases vl - pl + 1 - i,
    {
        if match_chars_at(v, p, i) {
            return Some(i);
        }
        i += 1;
    }
    None
}

/// Splits a text into non-empty lines without comments: each line is
/// trimmed of ASCII blanks, dropped when it is empty or starts with the
/// comment pattern, and otherwise kept up to the pattern's first
/// occurrence (trimmed again).
pub fn remove_comment_by_line(input: &str, start_with: &str) -> (r: Vec<String>)
    ensures
        r@.map_values(|x: String| x@) == spec_clean_lines(input@, start_with@),
{
    let all = chars_of(input);
    let pat = chars_of(start_with);
    let mut r: Vec<String> = Vec::new();
    let mut rest = all;
    while rest.len() > 0
        invariant
            pat@ == start_with@,
            r@.map_values(|x: String| x@) + spec_clean_lines(rest@, pat@) == spec_clean_lines(
                input@,
                pat@,
            ),
        decreases rest@.len(),
    {
        let ghost rest0 = rest@;
        // take one line off the front
        let nl_opt = find_nl(&rest);
        let found = nl_opt.is_some();
        let nl = match nl_opt {
            Some(i) => i,
            None => 0,
        };
        let line_end = if found {
            nl
        } else {
            rest.len()
        };
        let mut line = sub_chars(&rest, 0, line_end);
        if line.len() > 0 && line[line.len() - 1] == '\r' {
            line.pop();
            proof {
                assert(line@ =~= strip_cr(rest0.subrange(0, line_end as int)));
            }
        }
        proof {
            assert(line@ == strip_cr(rest0.subrange(0, line_end as int)));
        }
        let next = if found {
            sub_chars(&rest, nl + 1, rest.len())
        } else {
            Vec::new()
        };
        proof {
            if found {
                assert(split_lines(rest0) == seq![strip_cr(rest0.subrange(0, nl as int))]
                    + split_lines(rest0.subrange(nl + 1, rest0.len() as int)));
            } else {
                assert(split_lines(rest0) =~= seq![strip_cr(rest0)]);
                assert(rest0.subrange(0, line_end as int) =~= rest0);
                assert(split_lines(next@) =~= Seq::<Seq<char>>::empty());
            }
        }
        // clean the line
        let t = trim_chars(&line);
        let keep: Option<Vec<char>> = if (pat.len() <= t.len() && match_chars_at(&t, &pat, 0))
            || t.len() == 0 {
            None
        } else {
            proof {
                if pat@.len() > t@.len() {
                    assert(!match_at(t@, pat@, 0));
                }
            }
            match find_chars(&t, &pat) {
                Some(i) => {
                    let cut = sub_chars(&t, 0, i);
                    Some(trim_chars(&cut))
                },
                None => Some(t),
            }
        };
        proof {
            let lines0 = split_lines(rest0);
            assert(lines0.len() >= 1);
            assert(lines0[0] == line@);
            assert(clean_lines_of(lines0, pat@) == (match clean_line(line@, pat@) {
                Some(x) => seq![x],
                None => Seq::<Seq<char>>::empty(),
            }) + clean_lines_of(lines0.drop_first(), pat@));
            assert(lines0.drop_first() =~= split_lines(next@));
        }
        match keep {
            Some(kv) => {
                let s = string_of_chars(&kv);
                r.push(s);
                proof {
                    assert(r@.map_values(|x: String| x@) =~= r@.map_values(
                        |x: String| x@,
                    ).drop_last().push(kv@));
                }
            },
            None => {},
        }
        rest = next;
        proof {
            assert(r@.map_values(|x: String| x@) + spec_clean_lines(rest@, pat@)
                =~= spec_clean_lines(input@, pat@));
        }
    }
    proof {
        assert(spec_clean_lines(rest@, pat@) =~= Seq::<Seq<char>>::empty());
        assert(r@.map_values(|x: String| x@) + Seq::<Seq<char>>::empty() =~= r@.map_values(
            |x: String| x@,
        ));
    }
    r
}

/// The position of the first newline in `v`, if any.
fn find_nl(v: &Vec<char>) -> (r: Option<usize>)
    ensures
        (match r {
            Some(i) => find_nl_from(v@, 0) == Some(i as int) && (i as int) < v@.len()
                && v@[i as int] == '\n',
            None => find_nl_from(v@, 0) is None,
        }),
{
    let vl = v.len();
    let mut i: usize = 0;
    while i < vl
        invariant
            0 <= i <= vl,
            vl == v@.len(),
            forall|j: int| 0 <= j < i ==> v@[j] != '\n',
        decreases vl - i,
    {
        if v[i] == '\n' {
            proof {
                lemma_find_nl(v@, 0, i as int, true);
            }
            return Some(i);
        }
        i += 1;
    }
    proof {
        lemma_find_nl(v@, 0, 0, false);
    }
    None
}

/// The first newline search ends exactly where the scan stopped.
proof fn lemma_find_nl(s: Seq<char>, from: int, nl: int, found: bool)
    requires
        0 <= from,
        found ==> from <= nl < s.len() && s[nl] == '\n' && forall|j: int|
            from <= j < nl ==> s[j] != '\n',
        !found ==> forall|j: int| from <= j < s.len() ==> s[j] != '\n',
    ensures
        found ==> find_nl_from(s, from) == Some(nl),
        !found ==> find_nl_from(s, from) is None,
    decreases s.len() - from,
{
    if from >= s.len() {
    } else if s[from] == '\n' {
    } else {
        lemma_find_nl(s, from + 1, nl, found);
    }
}

/// The snail cursor: position, direction, and the shrinking window the
/// spiral walk stays within, together with the output written so far.
pub struct SnailState {
    pub cur_x: int,
    pub cur_y: int,
    pub dir_x: int,
    pub dir_y: int,
    pub min_x: int,
    pub min_y: int,
    pub max_x: int,
    pub max_y: int,
    pub out: Seq<u16>,
}

/// The walk's starting state: top-left corner, heading right, window
/// covering the whole board, output counting up from zero.
pub open spec fn snail_init(n: int) -> SnailState {
    SnailState {
        cur_x: 0,
        cur_y: 0,
        dir_x: 1,
        dir_y: 0,
        min_x: 0,
        min_y: 0,
        max_x: n - 1,
        max_y: n - 1,
        out: Seq::new((n * n) as nat, |i: int| i as u16),
    }
}

/// One step of the spiral walk: write `v` at the cursor (when it is on
/// the board), advance, and turn inward when the window edge is passed.
pub open spec fn snail_step(st: SnailState, v: u16, n: int) -> SnailState {
    let pos = st.cur_y * n + st.cur_x;
    let out2 = if 0 <= st.cur_x < n && 0 <= st.cur_y < n && 0 <= pos < st.out.len() {
        st.out.update(pos, v)
    } else {
        st.out
    };
    let cx = st.cur_x + st.dir_x;
    let cy = st.cur_y + st.dir_y;
    if cx > st.max_x {
        SnailState {
            cur_x: st.max_x,
            cur_y: cy + 1,
            dir_x: 0,
            dir_y: 1,
            min_y: st.min_y + 1,
            out: out2,
            ..st
        }
    } else if cx < st.min_x {
        SnailState {
            cur_x: st.min_x,
            cur_y: cy - 1,
            dir_x: 0,
            dir_y: -1,
            max_y: st.max_y - 1,
            out: out2,
            ..st
        }
    } else if cy > st.max_y {
        SnailState {
            cur_x: cx - 1,
            cur_y: st.max_y,
            dir_x: -1,
            dir_y: 0,
            max_x: st.max_x - 1,
            out: out2,
            ..st
        }
    } else if cy < st.min_y {
        SnailState {
            cur_x: cx + 1,
            cur_y: st.min_y,
            dir_x: 1,
            dir_y: 0,
            min_x: st.min_x + 1,
            out: out2,
            ..st
        }
    } else {
        SnailState { cur_x: cx, cur_y: cy, out: out2, ..st }
    }
}

/// The walk after consuming the first `k` input values.
pub open spec fn snail_run(input: Seq<u16>, n: int, k: int) -> SnailState
    decreases k,
{
    if k <= 0 {
        snail_init(n)
    } else {
        snail_step(snail_run(input, n, k - 1), input[k - 1], n)
    }
}

/// The spiral arrangement of `input` on an `n` by `n` board: the values
/// are laid out clockwise from the top-left corner inward; cells the
/// walk never writes keep their index.
pub open spec fn spec_snail(input: Seq<u16>, n: int) -> Seq<u16> {
    snail_run(input, n, input.len() as int).out
}

/// Lays the input values out in a clockwise spiral on a `maxabs` by
/// `maxabs` board, from the outer ring inward.
#[verifier::rlimit(100)]
pub fn snail_sort(input: &Vec<u16>, maxabs: u8) -> (r: Vec<u16>)
    requires
        input@.len() <= 65536,
    ensures
        r@ == spec_snail(input@, maxabs as int),
        r@.len() == (maxabs as int) * (maxabs as int),
{
    let n = maxabs as i32;
    let ghost nn = maxabs as int;
    proof {
        assert(nn * nn <= 65025) by (nonlinear_arith)
            requires
                0 <= nn <= 255,
        {}
    }
    let total = (maxabs as usize) * (maxabs as usize);
    let mut output: Vec<u16> = Vec::new();
    let mut i: usize = 0;
    while i < total
        invariant
            0 <= i <= total,
            total == nn * nn,
            total <= 65025,
            output@.len() == i,
            output@ =~= Seq::new(i as nat, |j: int| j as u16),
        decreases total - i,
    {
        output.push(i as u16);
        proof {
            assert(output@ =~= Seq::new((i + 1) as nat, |j: int| j as u16));
        }
        i += 1;
    }
    let mut dir_x: i32 = 1;
    let mut dir_y: i32 = 0;
    let mut cur_x: i32 = 0;
    let mut cur_y: i32 = 0;
    let mut min_x: i32 = 0;
    let mut min_y: i32 = 0;
    let mut max_x: i32 = n - 1;
    let mut max_y: i32 = n - 1;
    let mut k: usize = 0;
    while k < input.len()
        invariant
            0 <= k <= input@.len(),
            input@.len() <= 65536,
            0 <= n <= 255,
            nn == n as int,
            nn == maxabs as int,
            total == nn * nn,
            total <= 65025,
            ({
                let st = snail_run(input@, nn, k as int);
                &&& st.cur_x == cur_x as int
                &&& st.cur_y == cur_y as int
                &&& st.dir_x == dir_x as int
                &&& st.dir_y == dir_y as int
                &&& st.min_x == min_x as int
                &&& st.min_y == min_y as int
                &&& st.max_x == max_x as int
                &&& st.max_y == max_y as int
                &&& st.out == output@
            }),
            output@.len() == total,
            -2 * (k as int) - 2 <= cur_x <= 2 * (k as int) + 257,
            -2 * (k as int) - 2 <= cur_y <= 2 * (k as int) + 257,
            -2 * (k as int) - 2 <= min_x <= 2 * (k as int) + 257,
            -2 * (k as int) - 2 <= min_y <= 2 * (k as int) + 257,
            -2 * (k as int) - 2 <= max_x <= 2 * (k as int) + 257,
            -2 * (k as int) - 2 <= max_y <= 2 * (k as int) + 257,
            -1 <= dir_x <= 1,
            -1 <= dir_y <= 1,
        decreases input@.len() - k,
    {
        let v = input[k];
        if 0 <= cur_x && cur_x < n && 0 <= cur_y && cur_y < n {
            proof {
                assert((cur_y as int) * nn + (cur_x as int) < nn * nn && (cur_y as int) * nn
                    <= 65025) by (nonlinear_arith)
                    requires
                        0 <= (cur_x as int) && (cur_x as int) < nn,
                        0 <= (cur_y as int) && (cur_y as int) < nn,
                        nn <= 255,
                {}
            }
            let yy = cur_y as usize;
            let xx = cur_x as usize;
            proof {
                assert(yy as int == cur_y as int);
                assert(xx as int == cur_x as int);
                assert((yy as int) * (maxabs as int) <= 65025);
            }
            let pos = yy * (maxabs as usize) + xx;
            output[pos] = v;
        }
        let cx = cur_x + dir_x;
        let cy = cur_y + dir_y;
        if cx > max_x {
            dir_x = 0;
            dir_y = 1;
            min_y = min_y + 1;
            cur_x = max_x;
            cur_y = cy + 1;
        } else if cx < min_x {
            dir_x = 0;
            dir_y = -1;
            max_y = max_y - 1;
            cur_x = min_x;
            cur_y = cy - 1;
        } else if cy > max_y {
            dir_x = -1;
            dir_y = 0;
            max_x = max_x - 1;
            cur_y = max_y;
            cur_x = cx - 1;
        } else if cy < min_y {
            dir_x = 1;
            dir_y = 0;
            min_x = min_x + 1;
            cur_y = min_y;
            cur_x = cx + 1;
        } else {
            cur_x = cx;
            cur_y = cy;
        }
        k += 1;
    }
    output
}

} // verus!
