//! Parsing a puzzle description into a grid: comment stripping, decimal
//! numbers, whitespace-separated tokens, and the final permutation
//! check, together with the range validators the command line uses.

use vstd::prelude::*;

verus! {

use crate::grid::Grid;
use crate::grid::wf_map;
use crate::utils::is_space_char;
use crate::utils::spec_clean_lines;
use crate::utils::remove_comment_by_line;
use crate::utils::chars_of;
use vstd::string::StringExecFns;

/// Whether `s` is a permutation of `0 .. s.len()`.
pub open spec fn spec_is_perm(s: Seq<u16>) -> bool {
    &&& forall|i: int| 0 <= i < s.len() ==> (#[trigger] s[i]) < s.len()
    &&& forall|i: int, j: int|
        #![trigger s[i], s[j]]
        0 <= i < s.len() && 0 <= j < s.len() && i != j ==> s[i] != s[j]
    &&& forall|v: u16| v < s.len() ==> #[trigger] s.contains(v)
}

/// Checks that the cell values are exactly `0 .. len`, each once, with
/// at least one cell: what a valid puzzle body must satisfy.
pub fn sort_check_and_dedup(input: Vec<u16>) -> (r: bool)
    requires
        input@.len() <= 65536,
    ensures
        r == (input@.len() > 0 && spec_is_perm(input@)),
{
    let len = input.len();
    if len == 0 {
        return false;
    }
    let mut seen: Vec<bool> = vec![false; len];
    let mut i: usize = 0;
    while i < len
        invariant
            0 <= i <= len,
            1 <= len <= 65536,
            len == input@.len(),
            seen@.len() == len,
            forall|w: int|
                0 <= w < len ==> ((#[trigger] seen@[w]) <==> (exists|jj: int|
                    0 <= jj < i && input@[jj] == w)),
            forall|jj: int| 0 <= jj < i ==> (#[trigger] input@[jj]) < len,
            forall|j1: int, j2: int|
                #![trigger input@[j1], input@[j2]]
                0 <= j1 < j2 < i ==> input@[j1] != input@[j2],
        decreases len - i,
    {
        let v = input[i];
        if v as usize >= len {
            return false;
        }
        if seen[v as usize] {
            return false;
        }
        seen[v as usize] = true;
        proof {
            assert forall|w: int|
                0 <= w < len implies ((#[trigger] seen@[w]) <==> (exists|jj: int|
                    0 <= jj < i + 1 && input@[jj] == w)) by {
                if w == v as int {
                    assert(input@[i as int] == w);
                }
            }
        }
        i += 1;
    }
    let mut v: usize = 0;
    while v < len
        invariant
            0 <= v <= len,
            1 <= len <= 65536,
            len == input@.len(),
            seen@.len() == len,
            forall|w: int|
                0 <= w < len ==> ((#[trigger] seen@[w]) <==> (exists|jj: int|
                    0 <= jj < len && input@[jj] == w)),
            forall|w: int| 0 <= w < v ==> #[trigger] seen@[w],
        decreases len - v,
    {
        if !seen[v] {
            proof {
                if spec_is_perm(input@) {
                    assert(input@.contains(v as u16));
                    let jj = choose|jj: int|
                        0 <= jj < input@.len() && input@[jj] == v as u16;
                    assert(seen@[v as int]);
                }
            }
            return false;
        }
        v += 1;
    }
    proof {
        assert forall|vv: u16| vv < input@.len() implies #[trigger] input@.contains(vv) by {
            assert(seen@[vv as int]);
            let jj = choose|jj: int| 0 <= jj < input@.len() && input@[jj] == vv as int;
            assert(0 <= jj < input@.len() && input@[jj] == vv);
        }
    }
    true
}

/// The numeric value of a non-empty digit string, most significant
/// first; `None` when any character is not a decimal digit.
pub open spec fn digits_val(s: Seq<char>) -> Option<int>
    decreases s.len(),
{
    if s.len() == 0 {
        None
    } else if s.len() == 1 {
        spec_digit(s[0])
    } else {
        match (digits_val(s.drop_last()), spec_digit(s.last())) {
            (Some(a), Some(d)) => Some(a * 10 + d),
            _ => None,
        }
    }
}

/// The value of a decimal digit character.
pub open spec fn spec_digit(c: char) -> Option<int> {
    if 48 <= (c as u32) && (c as u32) <= 57 {
        Some((c as u32) - 48)
    } else {
        None
    }
}

/// What an unsigned decimal parse accepts: an optional leading plus
/// sign, then digits, with the value at most `max`.
pub open spec fn spec_parse_num(s: Seq<char>, max: int) -> Option<int> {
    let body = if s.len() >= 1 && s[0] == '+' {
        s.drop_first()
    } else {
        s
    };
    match digits_val(body) {
        Some(v) => if v <= max {
            Some(v)
        } else {
            None
        },
        None => None,
    }
}

/// Digit strings have non-negative values, and longer digit strings
/// never have smaller values than their prefixes.
proof fn lemma_digits_prefix(s: Seq<char>, k: int)
    requires
        1 <= k <= s.len(),
        digits_val(s) is Some,
    ensures
        digits_val(s.subrange(0, k)) is Some,
        digits_val(s.subrange(0, k)).unwrap() >= 0,
        digits_val(s).unwrap() >= digits_val(s.subrange(0, k)).unwrap(),
    decreases s.len(),
{
    if s.len() == 1 {
        assert(s.subrange(0, 1) =~= s);
    } else if k == s.len() {
        assert(s.subrange(0, k) =~= s);
        lemma_digits_prefix(s.drop_last(), s.len() - 1);
        assert(s.drop_last().subrange(0, s.len() - 1) =~= s.drop_last());
    } else {
        let head = s.drop_last();
        assert(digits_val(head) is Some);
        lemma_digits_prefix(head, k);
        assert(head.subrange(0, k) =~= s.subrange(0, k));
        let d = spec_digit(s.last()).unwrap();
        assert(digits_val(s).unwrap() == digits_val(head).unwrap() * 10 + d);
        assert(digits_val(head).unwrap() * 10 >= digits_val(head).unwrap()) by (nonlinear_arith)
            requires
                digits_val(head).unwrap() >= 0,
        {}
    }
}

/// Parses an unsigned decimal number of at most `max` from the
/// characters, mirroring the standard library's accepted shape: an
/// optional leading plus sign and at least one digit.
pub fn parse_num(v: &Vec<char>, max: u64) -> (r: Option<u64>)
    ensures
        (match r {
            Some(x) => spec_parse_num(v@, max as int) == Some(x as int),
            None => spec_parse_num(v@, max as int) is None,
        }),
{
    let vl = v.len();
    let start: usize = if vl >= 1 && v[0] == '+' {
        1
    } else {
        0
    };
    let ghost body = if v@.len() >= 1 && v@[0] == '+' {
        v@.drop_first()
    } else {
        v@
    };
    proof {
        assert(body =~= v@.subrange(start as int, vl as int));
    }
    if start == vl {
        return None;
    }
    let mut acc: u64 = 0;
    let mut j: usize = start;
    while j < vl
        invariant
            start <= j <= vl,
            vl == v@.len(),
            start < vl,
            start as int == (if v@.len() >= 1 && v@[0] == '+' {
                1int
            } else {
                0int
            }),
            body == v@.subrange(start as int, vl as int),
            body == (if v@.len() >= 1 && v@[0] == '+' {
                v@.drop_first()
            } else {
                v@
            }),
            j > start ==> digits_val(v@.subrange(start as int, j as int)) == Some(acc as int),
            j == start ==> acc == 0,
            acc <= max,
        decreases vl - j,
    {
        let c = v[j];
        let code = c as u32;
        if code < 48 || code > 57 {
            proof {
                if digits_val(body) is Some {
                    assert(body[j - start] == v@[j as int]);
                    lemma_digits_all(body, j - start);
                    assert(false);
                }
                assert(digits_val(body) is None);
                assert(spec_parse_num(v@, max as int) is None);
            }
            return None;
        }
        let d = (code - 48) as u64;
        proof {
            assert(spec_digit(v@[j as int]) == Some(d as int));
        }
        if d > max || acc > (max - d) / 10 {
            proof {
                assert(acc * 10 + d > max) by (nonlinear_arith)
                    requires
                        d > max || acc > (max as int - d) / 10,
                        0 <= d <= 9,
                        0 <= max,
                        acc >= 0,
                {}
                assert(digits_val(v@.subrange(start as int, j as int + 1)) == Some(
                    acc * 10 + d,
                )) by {
                    lemma_digits_snoc(v@, start as int, j as int, acc as int, d as int);
                }
                if digits_val(body) is Some {
                    lemma_digits_prefix(body, j as int + 1 - start);
                    assert(body.subrange(0, j + 1 - start) =~= v@.subrange(
                        start as int,
                        j as int + 1,
                    ));
                    assert(digits_val(body).unwrap() > max);
                }
                assert(spec_parse_num(v@, max as int) is None);
            }
            return None;
        }
        let acc2 = acc * 10 + d;
        proof {
            assert(acc * 10 + d <= max) by (nonlinear_arith)
                requires
                    acc <= (max as int - d) / 10,
                    0 <= d <= 9,
                    0 <= max,
                    acc >= 0,
            {}
            lemma_digits_snoc(v@, start as int, j as int, acc as int, d as int);
        }
        acc = acc2;
        j += 1;
    }
    proof {
        assert(v@.subrange(start as int, vl as int) =~= body);
    }
    Some(acc)
}

/// Appending one digit multiplies the prefix value by ten and adds it.
proof fn lemma_digits_snoc(s: Seq<char>, start: int, j: int, acc: int, d: int)
    requires
        0 <= start <= j < s.len(),
        j > start ==> digits_val(s.subrange(start, j)) == Some(acc),
        j == start ==> acc == 0,
        spec_digit(s[j]) == Some(d),
    ensures
        digits_val(s.subrange(start, j + 1)) == Some(acc * 10 + d),
{
    let w = s.subrange(start, j + 1);
    if j == start {
        assert(w.len() == 1);
        assert(w[0] == s[j]);
        assert(digits_val(w) == Some(d));
    } else {
        assert(w.drop_last() =~= s.subrange(start, j));
        assert(w.last() == s[j]);
    }
}

/// A non-digit anywhere makes the whole digit string invalid.
proof fn lemma_digits_all(s: Seq<char>, k: int)
    requires
        0 <= k < s.len(),
        digits_val(s) is Some,
    ensures
        spec_digit(s[k]) is Some,
    decreases s.len(),
{
    if s.len() == 1 {
    } else if k == s.len() - 1 {
    } else {
        lemma_digits_all(s.drop_last(), k);
    }
}

/// The end of the whitespace-free token starting at `i`.
pub open spec fn token_end(s: Seq<char>, i: int) -> int
    decreases s.len() - i,
{
    if i < 0 || i >= s.len() || is_space_char(s[i]) {
        i
    } else {
        token_end(s, i + 1)
    }
}

/// The whitespace-separated tokens of `s` from position `i` on.
pub open spec fn tokens_from(s: Seq<char>, i: int) -> Seq<Seq<char>>
    decreases s.len() - i,
{
    if i < 0 || i >= s.len() {
        Seq::empty()
    } else if is_space_char(s[i]) {
        tokens_from(s, i + 1)
    } else {
        let e = token_end(s, i);
        if i < e <= s.len() {
            seq![s.subrange(i, e)] + tokens_from(s, e)
        } else {
            seq![s.subrange(i, s.len() as int)]
        }
    }
}

/// The whitespace-separated tokens of a line.
pub open spec fn spec_tokens(s: Seq<char>) -> Seq<Seq<char>> {
    tokens_from(s, 0)
}

/// `token_end` stays within the text and moves at least one step on a
/// non-blank.
proof fn lemma_token_end(s: Seq<char>, i: int)
    requires
        0 <= i <= s.len(),
    ensures
        i <= token_end(s, i) <= s.len(),
        i < s.len() && !is_space_char(s[i]) ==> token_end(s, i) >= i + 1,
    decreases s.len() - i,
{
    if i < s.len() && !is_space_char(s[i]) {
        lemma_token_end(s, i + 1);
    }
}

/// Token scanning ends exactly where the blank scan stopped.
proof fn lemma_token_end_at(s: Seq<char>, i: int, e: int)
    requires
        0 <= i <= e <= s.len(),
        forall|j: int| i <= j < e ==> !is_space_char(#[trigger] s[j]),
        e < s.len() ==> is_space_char(s[e]),
    ensures
        token_end(s, i) == e,
    decreases e - i,
{
    if i < e {
        lemma_token_end_at(s, i + 1, e);
    }
}

/// Splits a line into its whitespace-separated tokens.
pub fn split_ws(v: &Vec<char>) -> (r: Vec<Vec<char>>)
    ensures
        r@.map_values(|t: Vec<char>| t@) == spec_tokens(v@),
{
    let vl = v.len();
    let mut r: Vec<Vec<char>> = Vec::new();
    let mut i: usize = 0;
    while i < vl
        invariant
            0 <= i <= vl,
            vl == v@.len(),
            r@.map_values(|t: Vec<char>| t@) + tokens_from(v@, i as int) == spec_tokens(v@),
        decreases vl - i,
    {
        if crate::utils::is_space(v[i]) {
            i += 1;
        } else {
            let start = i;
            let mut e = i;
            while e < vl && !crate::utils::is_space(v[e])
                invariant
                    start <= e <= vl,
                    vl == v@.len(),
                    forall|j: int| start <= j < e ==> !is_space_char(#[trigger] v@[j]),
                decreases vl - e,
            {
                e += 1;
            }
            proof {
                lemma_token_end_at(v@, start as int, e as int);
                lemma_token_end(v@, start as int);
            }
            let tok = crate::utils::sub_chars(v, start, e);
            r.push(tok);
            proof {
                assert(r@.map_values(|t: Vec<char>| t@) =~= r@.map_values(
                    |t: Vec<char>| t@,
                ).drop_last().push(v@.subrange(start as int, e as int)));
            }
            i = e;
        }
    }
    proof {
        assert(r@.map_values(|t: Vec<char>| t@) + Seq::<Seq<char>>::empty() =~= r@.map_values(
            |t: Vec<char>| t@,
        ));
    }
    r
}

/// The parsed cell values of one line's tokens, or `None` when any token
/// is not a value below 65536.
pub open spec fn parse_tokens(ts: Seq<Seq<char>>) -> Option<Seq<u16>>
    decreases ts.len(),
{
    if ts.len() == 0 {
        Some(Seq::empty())
    } else {
        match (spec_parse_num(ts[0], 65535), parse_tokens(ts.drop_first())) {
            (Some(x), Some(rest)) => Some(seq![x as u16] + rest),
            _ => None,
        }
    }
}

/// The concatenated cell values of all body lines: every line must hold
/// exactly `nb` valid values.
pub open spec fn parse_body(ls: Seq<Seq<char>>, nb: int) -> Option<Seq<u16>>
    decreases ls.len(),
{
    if ls.len() == 0 {
        Some(Seq::empty())
    } else {
        match (parse_tokens(spec_tokens(ls[0])), parse_body(ls.drop_first(), nb)) {
            (Some(line), Some(rest)) => if line.len() == nb {
                Some(line + rest)
            } else {
                None
            },
            _ => None,
        }
    }
}

/// What the puzzle parser accepts: after comment stripping, a first line
/// holding the side length, then exactly that many lines of that many
/// cell values, the whole forming a permutation of `0 .. n * n`, with a
/// side length between 1 and 255.
pub open spec fn spec_parse_puzzle(content: Seq<char>) -> Option<(Seq<u16>, u8)> {
    let ls = spec_clean_lines(content, seq!['#']);
    if ls.len() == 0 {
        None
    } else {
        match spec_parse_num(ls[0], usize::MAX as int) {
            None => None,
            Some(nb) => {
                if nb != ls.len() - 1 || nb < 1 || nb > 255 {
                    None
                } else {
                    match parse_body(ls.drop_first(), nb) {
                        None => None,
                        Some(cells) => if cells.len() > 0 && spec_is_perm(cells) {
                            Some((cells, nb as u8))
                        } else {
                            None
                        },
                    }
                }
            },
        }
    }
}

/// Parses a puzzle description into a grid: the comment character is
/// `#`; the first remaining line is the side length; the following lines
/// hold the rows. Returns the grid exactly when the text matches the
/// accepted shape and the cells form a permutation; the error text names
/// what went wrong.
#[verifier::rlimit(100)]
#[verifier::spinoff_prover]
pub fn parser(content: String) -> (r: Result<Grid, String>)
    ensures
        (match r {
            Ok(g) => {
                &&& spec_parse_puzzle(content@) matches Some(p) && g@ == p.0 && g.spec_lines()
                    == p.1
                &&& g.wf()
            },
            Err(_) => spec_parse_puzzle(content@) is None,
        }),
{
    proof {
        reveal_strlit("#");
        assert("#"@ =~= seq!['#']);
    }
    let mut content_lines = remove_comment_by_line(content.as_str(), "#");
    let ghost ls = spec_clean_lines(content@, seq!['#']);
    if content_lines.len() == 0 {
        return Err(String::from_str("There is no way we can resolve an empty puzzle dummy!"));
    }
    let first = content_lines.remove(0);
    let ghost body_ls = ls.drop_first();
    proof {
        assert(first@ == ls[0]);
        assert(content_lines@.map_values(|x: String| x@) =~= body_ls);
    }
    let nb_lines = content_lines.len();
    let first_chars = chars_of(first.as_str());
    let nb = match parse_num(&first_chars, usize::MAX as u64) {
        Some(x) => x as usize,
        None => {
            let mut msg = String::from_str("Invalid puzzle size: [");
            msg.append(first.as_str());
            msg.append("]");
            return Err(msg);
        },
    };
    if nb != nb_lines {
        return Err(
            String::from_str(
                "The size definition and the number of line of the puzzle don't match",
            ),
        );
    }
    if nb < 1 || nb > 255 {
        return Err(String::from_str("Invalid puzzle format"));
    }
    let mut ret: Vec<u16> = Vec::new();
    let mut li: usize = 0;
    proof {
        assert(body_ls.skip(0) =~= body_ls);
        match parse_body(body_ls, nb as int) {
            Some(c) => {
                assert(Seq::<u16>::empty() + c =~= c);
            },
            None => {},
        }
    }
    while li < content_lines.len()
        invariant
            0 <= li <= content_lines@.len(),
            content_lines@.map_values(|x: String| x@) == body_ls,
            1 <= nb <= 255,
            nb == content_lines@.len(),
            ls == spec_clean_lines(content@, seq!['#']),
            body_ls == ls.drop_first(),
            ls.len() == nb + 1,
            spec_parse_num(ls[0], usize::MAX as int) == Some(nb as int),
            ret@.len() == li * nb,
            (match parse_body(body_ls.skip(li as int), nb as int) {
                Some(c) => (match parse_body(body_ls, nb as int) {
                    Some(cells) => ret@ + c == cells,
                    None => false,
                }),
                None => parse_body(body_ls, nb as int) is None,
            }),
        decreases content_lines@.len() - li,
    {
        let line = &content_lines[li];
        let line_chars = chars_of(line.as_str());
        let toks = split_ws(&line_chars);
        let mut parsed_line: Vec<u16> = Vec::new();
        let ghost tseq = spec_tokens(line_chars@);
        let mut ti: usize = 0;
        let mut bad = false;
        proof {
            assert(tseq.skip(0) =~= tseq);
            match parse_tokens(tseq) {
                Some(all) => {
                    assert(Seq::<u16>::empty() + all =~= all);
                },
                None => {},
            }
        }
        while ti < toks.len()
            invariant
                0 <= ti <= toks@.len(),
                toks@.map_values(|t: Vec<char>| t@) == tseq,
                !bad ==> (match parse_tokens(tseq.skip(ti as int)) {
                    Some(rest) => (match parse_tokens(tseq) {
                        Some(all) => parsed_line@ + rest == all,
                        None => false,
                    }),
                    None => parse_tokens(tseq) is None,
                }),
                !bad ==> parsed_line@.len() == ti,
                bad ==> parse_tokens(tseq) is None,
            decreases toks@.len() - ti,
        {
            let tok = &toks[ti];
            proof {
                assert(tseq.skip(ti as int)[0] == tok@);
                assert(tseq.skip(ti as int).drop_first() =~= tseq.skip(ti as int + 1));
            }
            match parse_num(tok, 65535) {
                Some(x) => {
                    if !bad {
                        proof {
                            match parse_tokens(tseq.skip(ti as int)) {
                                Some(rest) => {
                                    match parse_tokens(tseq) {
                                        Some(all) => {
                                            assert(parsed_line@ + rest =~= all);
                                            assert(rest[0] == x as u16);
                                            assert(parsed_line@.push(x as u16) + rest.drop_first()
                                                =~= all);
                                        },
                                        None => {},
                                    }
                                },
                                None => {},
                            }
                        }
                    }
                    parsed_line.push(x as u16);
                },
                None => {
                    bad = true;
                },
            }
            ti += 1;
        }
        proof {
            assert(tseq.skip(toks@.len() as int) =~= Seq::<Seq<char>>::empty());
            assert(body_ls.skip(li as int)[0] == line@);
            assert(body_ls.skip(li as int).drop_first() =~= body_ls.skip(li as int + 1));
            assert(line_chars@ == line@);
            if !bad {
                match parse_tokens(tseq) {
                    Some(all) => {
                        assert(parsed_line@ + Seq::<u16>::empty() =~= parsed_line@);
                        assert(all == parsed_line@);
                    },
                    None => {
                        assert(false);
                    },
                }
            }
        }
        if bad {
            proof {
                assert(parse_body(body_ls.skip(li as int), nb as int) is None);
                assert(parse_body(body_ls, nb as int) is None);
                assert(ls.len() != 0);
                assert(spec_parse_num(ls[0], usize::MAX as int) == Some(nb as int));
                assert(nb as int == ls.len() - 1);
                assert(parse_body(ls.drop_first(), nb as int) is None);
                assert(spec_parse_puzzle(content@) is None);
            }
            let mut msg = String::from_str(
                "At least one invalid token found in the following line: ",
            );
            msg.append(line.as_str());
            return Err(msg);
        }
        if parsed_line.len() != nb {
            proof {
                assert(parse_tokens(spec_tokens(body_ls.skip(li as int)[0])) == Some(
                    parsed_line@,
                ));
                assert(parse_body(body_ls.skip(li as int), nb as int) is None);
                assert(parse_body(body_ls, nb as int) is None);
                assert(ls.len() != 0);
                assert(spec_parse_num(ls[0], usize::MAX as int) == Some(nb as int));
                assert(nb as int == ls.len() - 1);
                assert(parse_body(ls.drop_first(), nb as int) is None);
                assert(spec_parse_puzzle(content@) is None);
            }
            let mut msg = String::from_str(
                "Invalid puzzle format: the following line has the wrong number of columns: ",
            );
            msg.append(line.as_str());
            return Err(msg);
        }
        let ghost pre = ret@;
        proof {
            match parse_body(body_ls.skip(li as int + 1), nb as int) {
                Some(rest) => {
                    assert(parse_body(body_ls.skip(li as int), nb as int) == Some(
                        parsed_line@ + rest,
                    ));
                    match parse_body(body_ls, nb as int) {
                        Some(cells) => {
                            assert(pre + (parsed_line@ + rest) == cells);
                            assert((pre + parsed_line@) + rest =~= pre + (parsed_line@ + rest));
                        },
                        None => {},
                    }
                },
                None => {
                    assert(parse_body(body_ls.skip(li as int), nb as int) is None);
                },
            }
            assert((li + 1) * nb == li * nb + nb) by (nonlinear_arith)
            {}
        }
        let mut tail = parsed_line;
        ret.append(&mut tail);
        li += 1;
    }
    proof {
        assert(body_ls.skip(content_lines@.len() as int) =~= Seq::<Seq<char>>::empty());
        match parse_body(body_ls, nb as int) {
            Some(cells) => {
                assert(ret@ + Seq::<u16>::empty() =~= ret@);
                assert(ret@ == cells);
            },
            None => {},
        }
        assert((nb as int) * (nb as int) <= 65025) by (nonlinear_arith)
            requires
                1 <= nb as int <= 255,
        {}
    }
    let lines_u8 = nb as u8;
    let check_copy = copy_cells(&ret);
    if sort_check_and_dedup(check_copy) {
        proof {
            assert(parse_body(body_ls, nb as int) matches Some(cells) && ret@ == cells) by {
                match parse_body(body_ls.skip(content_lines@.len() as int), nb as int) {
                    Some(c) => {},
                    None => {
                        assert(false);
                    },
                }
            }
            assert(ret@.len() == (nb as int) * (nb as int));
            assert(wf_map(ret@, lines_u8));
        }
        Ok(Grid::new(ret, lines_u8))
    } else {
        Err(String::from_str("Invalid puzzle format"))
    }
}

/// A copy of a cell vector.
fn copy_cells(v: &Vec<u16>) -> (r: Vec<u16>)
    ensures
        r@ == v@,
{
    let mut r: Vec<u16> = Vec::new();
    let mut i: usize = 0;
    while i < v.len()
        invariant
            0 <= i <= v@.len(),
            r@ == v@.subrange(0, i as int),
        decreases v@.len() - i,
    {
        r.push(v[i]);
        proof {
            assert(r@ =~= v@.subrange(0, i + 1));
        }
        i += 1;
    }
    proof {
        assert(v@.subrange(0, v@.len() as int) =~= v@);
    }
    r
}

/// Validates a puzzle-size argument: a number strictly between 2 and 9.
pub fn expect_size(nbr: String) -> (r: Result<(), String>)
    ensures
        (match spec_parse_num(nbr@, 255) {
            Some(v) => (2 < v < 9) == (r is Ok),
            None => r is Err,
        }),
{
    let chars = chars_of(nbr.as_str());
    match parse_num(&chars, 255) {
        Some(v) => {
            if v > 2 && v < 9 {
                Ok(())
            } else {
                Err(String::from_str("Number must be between 2 and 8"))
            }
        },
        None => Err(String::from_str("Expected a number")),
    }
}

/// Validates a weight argument: a number strictly between 0 and 100.
pub fn expect_weight(nbr: String) -> (r: Result<(), String>)
    ensures
        (match spec_parse_num(nbr@, 255) {
            Some(v) => (0 < v < 100) == (r is Ok),
            None => r is Err,
        }),
{
    let chars = chars_of(nbr.as_str());
    match parse_num(&chars, 255) {
        Some(v) => {
            if v > 0 && v < 100 {
                Ok(())
            } else {
                Err(String::from_str("Number must be between 0 and 100"))
            }
        },
        None => Err(String::from_str("Expected a number")),
    }
}

/// Validates a uniform-cost ceiling argument: a positive number below
/// the 32-bit maximum.
pub fn expect_gscore(nbr: String) -> (r: Result<(), String>)
    ensures
        (match spec_parse_num(nbr@, u32::MAX as int) {
            Some(v) => (0 < v < u32::MAX) == (r is Ok),
            None => r is Err,
        }),
{
    let chars = chars_of(nbr.as_str());
    match parse_num(&chars, u32::MAX as u64) {
        Some(v) => {
            if v > 0 && v < u32::MAX as u64 {
                Ok(())
            } else {
                Err(String::from_str("Number must be between 0 and U32MAX"))
            }
        },
        None => Err(String::from_str("Expected a number")),
    }
}

} // verus!
