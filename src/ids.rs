use vstd::prelude::*;
use vstd::string::StrSliceExecFns;
use vstd::string::StringExecFns;
use vstd::std_specs::iter::IteratorSpec;

verus! {

/// An ASCII uppercase letter.
pub open spec fn is_upper(c: char) -> bool {
    'A' <= c && c <= 'Z'
}

/// An ASCII decimal digit.
pub open spec fn is_digit(c: char) -> bool {
    '0' <= c && c <= '9'
}

/// The end of the run of uppercase letters that starts at `i`.
pub open spec fn upper_end(c: Seq<char>, i: int) -> int
    decreases c.len() - i,
{
    if 0 <= i < c.len() && is_upper(c[i]) {
        upper_end(c, i + 1)
    } else {
        i
    }
}

/// The end of the run of digits that starts at `i`.
pub open spec fn digit_end(c: Seq<char>, i: int) -> int
    decreases c.len() - i,
{
    if 0 <= i < c.len() && is_digit(c[i]) {
        digit_end(c, i + 1)
    } else {
        i
    }
}

/// An identifier (letters, then digits) starts at `i`.
pub open spec fn starts_id(c: Seq<char>, i: int) -> bool {
    0 <= i < c.len() && is_upper(c[i]) && upper_end(c, i) < c.len() && is_digit(
        c[upper_end(c, i)],
    )
}

/// The first position at or after `i` where an identifier starts.
pub open spec fn first_start(c: Seq<char>, i: int) -> Option<int>
    decreases c.len() - i,
{
    if i < 0 || i >= c.len() {
        None
    } else if starts_id(c, i) {
        Some(i)
    } else {
        first_start(c, i + 1)
    }
}

/// The number that a sequence of decimal digits denotes.
pub open spec fn digits_value(d: Seq<char>) -> nat
    decreases d.len(),
{
    if d.len() == 0 {
        0
    } else {
        10 * digits_value(d.drop_last()) + ((d.last() as int - '0' as int) as nat)
    }
}

/// The identifier of one comma-separated chunk: its first match of letters
/// followed by digits, as the letters and the value of the digits. A chunk
/// without a match, or whose number exceeds `u32::MAX`, has none.
pub open spec fn chunk_id(c: Seq<char>) -> Option<(Seq<char>, u32)> {
    match first_start(c, 0) {
        Some(i) => {
            let j = upper_end(c, i);
            let v = digits_value(c.subrange(j, digit_end(c, j)));
            if v <= u32::MAX {
                Some((c.subrange(i, j), v as u32))
            } else {
                None
            }
        },
        None => None,
    }
}

/// The text split at each comma; a text without a comma is one chunk.
pub open spec fn chunks(s: Seq<char>) -> Seq<Seq<char>>
    decreases s.len(),
{
    if s.len() == 0 {
        seq![Seq::empty()]
    } else {
        let prev = chunks(s.drop_last());
        if s.last() == ',' {
            prev.push(Seq::empty())
        } else {
            prev.update(prev.len() - 1, prev.last().push(s.last()))
        }
    }
}

/// The identifiers of a list of chunks, in order.
pub open spec fn ids_of_chunks(cs: Seq<Seq<char>>) -> Seq<(Seq<char>, u32)>
    decreases cs.len(),
{
    if cs.len() == 0 {
        Seq::empty()
    } else {
        let prev = ids_of_chunks(cs.drop_last());
        match chunk_id(cs.last()) {
            Some(id) => prev.push(id),
            None => prev,
        }
    }
}

/// The identifiers of a line.
pub open spec fn line_ids(s: Seq<char>) -> Seq<(Seq<char>, u32)> {
    ids_of_chunks(chunks(s))
}

/// The values of a list of extracted identifiers.
pub open spec fn ids_view(v: Seq<(String, u32)>) -> Seq<(Seq<char>, u32)> {
    v.map_values(|p: (String, u32)| (p.0@, p.1))
}

/// The characters of `s`, in order.
fn line_chars(s: &str) -> (r: Vec<char>)
    ensures
        r@ == s@,
{
    broadcast use vstd::string::group_string_axioms;

    let mut it = s.chars();
    let mut r: Vec<char> = Vec::new();
    loop
        invariant_except_break
            r@.len() <= s@.len(),
            r@ == s@.subrange(0, r@.len() as int),
            it.remaining() == s@.subrange(r@.len() as int, s@.len() as int),
        ensures
            r@ == s@,
        decreases s@.len() - r@.len(),
    {
        match it.next() {
            Some(c) => {
                r.push(c);
            },
            None => {
                assert(r@.len() == s@.len());
                assert(r@ =~= s@);
                break ;
            },
        }
    }
    r
}

proof fn lemma_skip_run(c: Seq<char>, i: int, j: int)
    requires
        0 <= i <= j <= c.len(),
        forall|t: int| i <= t < j ==> !starts_id(c, t),
    ensures
        first_start(c, i) == first_start(c, j),
    decreases j - i,
{
    if i < j {
        lemma_skip_run(c, i + 1, j);
    }
}

proof fn lemma_value_grows(d: Seq<char>)
    requires
        d.len() > 0,
        is_digit(d.last()),
    ensures
        digits_value(d) >= digits_value(d.drop_last()),
{
}

/// Finds the identifier of a chunk: where its letters start and end, and its
/// value.
fn find_chunk_id(c: &Vec<char>) -> (r: Option<(usize, usize, u32)>)
    ensures
        r is None <==> chunk_id(c@) is None,
        r matches Some((i, j, v)) ==> i <= j <= c@.len() && chunk_id(c@) == Some(
            (c@.subrange(i as int, j as int), v),
        ),
{
    let n = c.len();
    let mut i: usize = 0;
    while i < n
        invariant
            i <= n,
            n == c@.len(),
            first_start(c@, 0) == first_start(c@, i as int),
        decreases n - i,
    {
        let ch = c[i];
        if 'A' <= ch && ch <= 'Z' {
            let mut j: usize = i;
            while j < n && 'A' <= c[j] && c[j] <= 'Z'
                invariant
                    i <= j <= n,
                    n == c@.len(),
                    forall|t: int| i <= t < j ==> #[trigger] upper_end(c@, t) == upper_end(c@, j as int),
                    forall|t: int| i <= t < j ==> is_upper(#[trigger] c@[t]),
                decreases n - j,
            {
                j += 1;
            }
            assert(upper_end(c@, j as int) == j);
            assert(j > i);
            if j < n && '0' <= c[j] && c[j] <= '9' {
                assert(starts_id(c@, i as int));
                let mut k: usize = j;
                let mut val: u32 = 0;
                let mut fits = true;
                while k < n && '0' <= c[k] && c[k] <= '9'
                    invariant
                        j <= k <= n,
                        n == c@.len(),
                        digit_end(c@, j as int) == digit_end(c@, k as int),
                        fits ==> val as nat == digits_value(c@.subrange(j as int, k as int)),
                        !fits ==> digits_value(c@.subrange(j as int, k as int)) > u32::MAX,
                    decreases n - k,
                {
                    let d = (c[k] as u32) - ('0' as u32);
                    proof {
                        let next = c@.subrange(j as int, k as int + 1);
                        assert(next.drop_last() =~= c@.subrange(j as int, k as int));
                        assert(next.last() == c@[k as int]);
                        lemma_value_grows(next);
                    }
                    if fits {
                        let nv: u64 = (val as u64) * 10 + (d as u64);
                        if nv <= u32::MAX as u64 {
                            val = nv as u32;
                        } else {
                            fits = false;
                        }
                    }
                    k += 1;
                }
                assert(digit_end(c@, k as int) == k);
                if fits {
                    return Some((i, j, val));
                } else {
                    return None;
                }
            }
            proof {
                assert forall|t: int| i <= t < j implies !starts_id(c@, t) by {
                    assert(upper_end(c@, t) == j);
                }
                lemma_skip_run(c@, i as int, j as int);
            }
            i = j;
        } else {
            assert(!starts_id(c@, i as int));
            i += 1;
        }
    }
    None
}

/// Appends the identifier of `chunk`, which stands in `line` from `start`
/// on, if it has one.
fn push_chunk_id(line: &str, chunk: &Vec<char>, start: usize, out: &mut Vec<(String, u32)>)
    requires
        start + chunk@.len() <= line@.len() <= usize::MAX,
        line@.subrange(start as int, start + chunk@.len()) == chunk@,
    ensures
        ids_view(final(out)@) == match chunk_id(chunk@) {
            Some(id) => ids_view(old(out)@).push(id),
            None => ids_view(old(out)@),
        },
{
    match find_chunk_id(chunk) {
        Some((a, b, v)) => {
            let letters = line.substring_char(start + a, start + b);
            let prefix = letters.to_owned();
            proof {
                assert(letters@ =~= chunk@.subrange(a as int, b as int));
            }
            out.push((prefix, v));
            assert(ids_view(final(out)@) =~= ids_view(old(out)@).push((prefix@, v)));
        },
        None => {
            assert(ids_view(final(out)@) =~= ids_view(old(out)@));
        },
    }
}

/// The identifiers of a line: the line is split at each comma, and each
/// chunk gives its first run of uppercase letters directly followed by
/// digits, as those letters and the number the digits denote. A chunk
/// without one, or whose number does not fit in a `u32`, gives nothing.
pub fn extract_ids(line: &str) -> (r: Vec<(String, u32)>)
    ensures
        ids_view(r@) == line_ids(line@),
{
    let chars = line_chars(line);
    let n = chars.len();
    let mut out: Vec<(String, u32)> = Vec::new();
    let mut chunk: Vec<char> = Vec::new();
    let mut start: usize = 0;
    let ghost mut done: Seq<Seq<char>> = Seq::empty();
    let mut i: usize = 0;
    assert(chars@.subrange(0, 0) =~= Seq::<char>::empty());
    assert(chunks(Seq::<char>::empty()) =~= done.push(chunk@));
    while i < n
        invariant
            i <= n,
            n == chars@.len(),
            chars@ == line@,
            start <= i,
            chunk@ == chars@.subrange(start as int, i as int),
            chunks(chars@.subrange(0, i as int)) == done.push(chunk@),
            ids_view(out@) == ids_of_chunks(done),
        decreases n - i,
    {
        let ch = chars[i];
        let ghost prefix = chars@.subrange(0, i as int + 1);
        proof {
            assert(prefix.drop_last() =~= chars@.subrange(0, i as int));
            assert(prefix.last() == ch);
        }
        if ch == ',' {
            push_chunk_id(line, &chunk, start, &mut out);
            proof {
                assert(done.push(chunk@).drop_last() =~= done);
                done = done.push(chunk@);
            }
            chunk = Vec::new();
            start = i + 1;
            proof {
                assert(chunk@ =~= chars@.subrange(start as int, i as int + 1));
            }
        } else {
            chunk.push(ch);
            proof {
                assert(chunk@ =~= chars@.subrange(start as int, i as int + 1));
                assert(chunks(prefix) =~= done.push(chunk@));
            }
        }
        i += 1;
    }
    assert(chars@.subrange(0, n as int) =~= chars@);
    push_chunk_id(line, &chunk, start, &mut out);
    proof {
        assert(done.push(chunk@).drop_last() =~= done);
    }
    out
}

} // verus!
