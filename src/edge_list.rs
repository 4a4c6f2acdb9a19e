use vstd::prelude::*;

verus! {

/// White space in Unicode's sense, the set on which `char::is_whitespace`
/// and `str::split_whitespace` agree.
pub open spec fn is_blank(c: char) -> bool {
    let x = c as u32;
    ||| 0x09 <= x <= 0x0d
    ||| x == 0x20
    ||| x == 0x85
    ||| x == 0xa0
    ||| x == 0x1680
    ||| 0x2000 <= x <= 0x200a
    ||| x == 0x2028
    ||| x == 0x2029
    ||| x == 0x202f
    ||| x == 0x205f
    ||| x == 0x3000
}

/// The lines of `text`, split at each `'\n'` (a final empty line included).
pub open spec fn lines(text: Seq<char>) -> Seq<Seq<char>>
    decreases text.len(),
{
    if text.len() == 0 {
        seq![Seq::empty()]
    } else {
        let before = lines(text.drop_last());
        if text.last() == '\n' {
            before.push(Seq::empty())
        } else {
            before.update(before.len() - 1, before.last().push(text.last()))
        }
    }
}

/// The maximal runs of non-blank characters of `line`, in order.
pub open spec fn tokens(line: Seq<char>) -> Seq<Seq<char>>
    decreases line.len(),
{
    if line.len() == 0 {
        Seq::empty()
    } else {
        let before = tokens(line.drop_last());
        let c = line.last();
        if is_blank(c) {
            before
        } else if line.len() > 1 && !is_blank(line[line.len() - 2]) {
            before.update(before.len() - 1, before.last().push(c))
        } else {
            before.push(seq![c])
        }
    }
}

/// An ASCII decimal digit.
pub open spec fn is_digit(c: char) -> bool {
    '0' as u32 <= c as u32 <= '9' as u32
}

/// The number written by a sequence of decimal digits.
pub open spec fn digits_value(d: Seq<char>) -> nat
    decreases d.len(),
{
    if d.len() == 0 {
        0
    } else {
        digits_value(d.drop_last()) * 10 + (d.last() as u32 - '0' as u32) as nat
    }
}

/// `t` without one leading `+`, if it has one.
pub open spec fn unsigned_part(t: Seq<char>) -> Seq<char> {
    if t.len() > 0 && t[0] == '+' {
        t.drop_first()
    } else {
        t
    }
}

/// Every character of `d` is a decimal digit.
pub open spec fn all_digits(d: Seq<char>) -> bool {
    forall|k: int| 0 <= k < d.len() ==> is_digit(#[trigger] d[k])
}

/// A node id as `str::parse::<usize>` reads it: an optional `+`, then at
/// least one decimal digit, the value fitting in `usize`.
pub open spec fn parse_id(t: Seq<char>) -> Option<usize> {
    let d = unsigned_part(t);
    if d.len() > 0 && all_digits(d) && digits_value(d) <= usize::MAX {
        Some(digits_value(d) as usize)
    } else {
        None
    }
}

/// The edges of a list of lines: a line of two tokens is an edge, other lines
/// are skipped, and the first line of two tokens that are not both node ids
/// is an error, reported by its 1-based number.
pub open spec fn edges_from(ls: Seq<Seq<char>>) -> Result<Seq<(usize, usize)>, nat>
    decreases ls.len(),
{
    if ls.len() == 0 {
        Ok(Seq::empty())
    } else {
        match edges_from(ls.drop_last()) {
            Err(n) => Err(n),
            Ok(es) => {
                let t = tokens(ls.last());
                if t.len() != 2 {
                    Ok(es)
                } else {
                    match (parse_id(t[0]), parse_id(t[1])) {
                        (Some(u), Some(v)) => Ok(es.push((u, v))),
                        _ => Err(ls.len()),
                    }
                }
            },
        }
    }
}

/// The edges of an edge-list text, one edge per line.
pub open spec fn parse_edges(text: Seq<char>) -> Result<Seq<(usize, usize)>, nat> {
    edges_from(lines(text))
}

/// Whether `c` is white space; see `is_blank`.
fn blank(c: char) -> (r: bool)
    ensures
        r == is_blank(c),
{
    let x = c as u32;
    (0x09 <= x && x <= 0x0d) || x == 0x20 || x == 0x85 || x == 0xa0 || x == 0x1680 || (0x2000
        <= x && x <= 0x200a) || x == 0x2028 || x == 0x2029 || x == 0x202f || x == 0x205f || x
        == 0x3000
}

/// A prefix of a digit string never writes a larger number.
proof fn lemma_digits_prefix(d: Seq<char>, m: int)
    requires
        0 <= m <= d.len(),
    ensures
        digits_value(d.take(m)) <= digits_value(d),
    decreases d.len(),
{
    if m < d.len() {
        assert(d.drop_last().take(m) =~= d.take(m));
        lemma_digits_prefix(d.drop_last(), m);
    } else {
        assert(d.take(m) =~= d);
    }
}

/// Reads a node id; see `parse_id`.
pub fn parse_node_id(t: &Vec<char>) -> (r: Option<usize>)
    ensures
        r == parse_id(t@),
{
    let start: usize = if t.len() > 0 && t[0] == '+' { 1 } else { 0 };
    let ghost d = unsigned_part(t@);
    assert(d =~= t@.skip(start as int));
    if start == t.len() {
        return None;
    }
    let mut acc: usize = 0;
    let mut k: usize = start;
    while k < t.len()
        invariant
            start <= k <= t.len(),
            d == t@.skip(start as int),
            d == unsigned_part(t@),
            acc == digits_value(d.take(k - start)),
            forall|j: int| 0 <= j < k - start ==> is_digit(#[trigger] d[j]),
        decreases t.len() - k,
    {
        let c = t[k];
        let x = c as u32;
        assert(d[k - start] == c);
        if x < '0' as u32 || x > '9' as u32 {
            assert(!is_digit(d[k - start]));
            assert(!all_digits(d));
            return None;
        }
        assert(d.take(k - start + 1).drop_last() =~= d.take(k - start));
        assert(d.take(k - start + 1).last() == c);
        assert(digits_value(d.take(k - start + 1)) == acc * 10 + (x - '0' as u32) as nat);
        let grown = match acc.checked_mul(10) {
            Some(p) => p.checked_add((x - '0' as u32) as usize),
            None => None,
        };
        match grown {
            Some(g) => {
                acc = g;
            },
            None => {
                proof {
                    assert(digits_value(d.take(k - start + 1)) > usize::MAX);
                    if all_digits(d) {
                        lemma_digits_prefix(d, k - start + 1);
                    }
                    assert(parse_id(t@) is None);
                }
                return None;
            },
        }
        k += 1;
    }
    assert(d.take(d.len() as int) =~= d);
    Some(acc)
}

/// Where the scan of a line stands: `count` tokens closed so far (3 standing
/// for any more), the first two of them, and the token still open, if any.
spec fn scan_state(line: Seq<char>, count: usize, first: Seq<char>, second: Seq<char>, cur: Seq<char>) -> bool {
    let t = tokens(line);
    let closed = t.len() - if cur.len() > 0 { 1int } else { 0int };
    &&& (cur.len() > 0 <==> (line.len() > 0 && !is_blank(line.last())))
    &&& closed >= 0
    &&& count == if closed < 3 { closed } else { 3 }
    &&& cur.len() > 0 ==> t[closed] == cur
    &&& closed >= 1 ==> t[0] == first
    &&& closed >= 2 ==> t[1] == second
}

/// Parses an edge list: one edge per line as two node ids separated by white
/// space. Lines that do not hold exactly two tokens are skipped; a line whose
/// two tokens are not both node ids fails the whole parse with its 1-based
/// number.
pub fn parse_edge_list(text: &Vec<char>) -> (r: Result<Vec<(usize, usize)>, usize>)
    requires
        text@.len() < usize::MAX,
    ensures
        match r {
            Ok(es) => parse_edges(text@) == Result::<Seq<(usize, usize)>, nat>::Ok(es@),
            Err(n) => parse_edges(text@) == Result::<Seq<(usize, usize)>, nat>::Err(n as nat),
        },
{
    let mut edges: Vec<(usize, usize)> = Vec::new();
    let mut bad: Option<usize> = None;
    let mut line_no: usize = 1;
    let mut count: usize = 0;
    let mut first: Vec<char> = Vec::new();
    let mut second: Vec<char> = Vec::new();
    let mut cur: Vec<char> = Vec::new();
    let ghost mut done: Seq<Seq<char>> = Seq::empty();
    let ghost mut line: Seq<char> = Seq::empty();
    assert(text@.take(0) =~= Seq::<char>::empty());
    let mut i: usize = 0;
    loop
        invariant
            i <= text.len(),
            text@.len() < usize::MAX,
            lines(text@.take(i as int)) == done.push(line),
            edges_from(done) == match bad {
                Some(n) => Result::<Seq<(usize, usize)>, nat>::Err(n as nat),
                None => Result::<Seq<(usize, usize)>, nat>::Ok(edges@),
            },
            line_no == done.len() + 1,
            line_no <= i + 1,
            scan_state(line, count, first@, second@, cur@),
        decreases text.len() - i,
    {
        let at_end = i == text.len();
        let c = if at_end { '\n' } else { text[i] };
        if !at_end {
            assert(text@.take(i + 1).drop_last() =~= text@.take(i as int));
        }
        if blank(c) {
            if cur.len() > 0 {
                if count == 0 {
                    first = cur;
                } else if count == 1 {
                    second = cur;
                }
                if count < 3 {
                    count += 1;
                }
                cur = Vec::new();
            }
            if c == '\n' {
                if bad.is_none() && count == 2 {
                    match (parse_node_id(&first), parse_node_id(&second)) {
                        (Some(u), Some(v)) => edges.push((u, v)),
                        _ => bad = Some(line_no),
                    }
                }
                proof {
                    assert(edges_from(done.push(line)) == match bad {
                        Some(n) => Result::<Seq<(usize, usize)>, nat>::Err(n as nat),
                        None => Result::<Seq<(usize, usize)>, nat>::Ok(edges@),
                    }) by {
                        assert(done.push(line).drop_last() =~= done);
                    }
                }
                if at_end {
                    assert(text@.take(i as int) =~= text@);
                    return match bad {
                        Some(n) => Err(n),
                        None => Ok(edges),
                    };
                }
                count = 0;
                line_no += 1;
                proof {
                    done = done.push(line);
                    line = Seq::empty();
                }
            } else {
                proof {
                    let grown = line.push(c);
                    assert(grown.drop_last() =~= line);
                    assert(tokens(grown) == tokens(line));
                    line = grown;
                }
            }
        } else {
            let ghost was_open = cur@.len() > 0;
            cur.push(c);
            proof {
                let grown = line.push(c);
                assert(grown.drop_last() =~= line);
                if line.len() > 0 {
                    assert(grown[grown.len() - 2] == line.last());
                }
                let t = tokens(line);
                if was_open {
                    assert(tokens(grown) == t.update(t.len() - 1, t.last().push(c)));
                } else {
                    assert(tokens(grown) == t.push(seq![c]));
                    assert(cur@ =~= seq![c]);
                }
                line = grown;
            }
        }
        i += 1;
    }
}

} // verus!
