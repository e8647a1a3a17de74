use vstd::prelude::*;
use vstd::string::StringExecFns;

verus! {

/// The runs of consecutive values, grouped in the order the values come.
pub open spec fn runs_of(xs: Seq<u32>) -> Seq<Seq<u32>>
    decreases xs.len(),
{
    if xs.len() == 0 {
        Seq::empty()
    } else {
        let prev = runs_of(xs.drop_last());
        let x = xs.last();
        if prev.len() > 0 && prev.last().len() > 0 && prev.last().last() + 1 == x {
            prev.update(prev.len() - 1, prev.last().push(x))
        } else {
            prev.push(seq![x])
        }
    }
}

/// The values of a list of runs, as sequences.
pub open spec fn runs_view(v: Seq<Vec<u32>>) -> Seq<Seq<u32>> {
    v.map_values(|r: Vec<u32>| r@)
}

/// Groups `xs`, in the given order, into maximal runs in which each value is
/// one more than the one before it.
pub fn find_number_ranges(xs: Vec<u32>) -> (r: Vec<Vec<u32>>)
    ensures
        runs_view(r@) == runs_of(xs@),
{
    let mut acc: Vec<Vec<u32>> = Vec::new();
    let mut i: usize = 0;
    while i < xs.len()
        invariant
            i <= xs.len(),
            runs_view(acc@) == runs_of(xs@.subrange(0, i as int)),
        decreases xs.len() - i,
    {
        let x = xs[i];
        proof {
            assert(xs@.subrange(0, i as int + 1).drop_last() == xs@.subrange(0, i as int));
        }
        let n = acc.len();
        let mut extend = false;
        if n > 0 {
            let m = acc[n - 1].len();
            if m > 0 && x > 0 && acc[n - 1][m - 1] == x - 1 {
                extend = true;
            }
        }
        let ghost prev = runs_view(acc@);
        if extend {
            let mut last = acc.pop().unwrap();
            last.push(x);
            acc.push(last);
            proof {
                assert(runs_view(acc@) =~= prev.update(prev.len() - 1, prev.last().push(x)));
            }
        } else {
            let single = vec![x];
            assert(single@ =~= seq![x]);
            acc.push(single);
            proof {
                assert(runs_view(acc@) =~= prev.push(seq![x]));
            }
        }
        i += 1;
    }
    proof {
        assert(xs@.subrange(0, xs@.len() as int) == xs@);
    }
    acc
}

/// The character of a decimal digit.
pub open spec fn digit_char(d: int) -> char {
    if d == 0 {
        '0'
    } else if d == 1 {
        '1'
    } else if d == 2 {
        '2'
    } else if d == 3 {
        '3'
    } else if d == 4 {
        '4'
    } else if d == 5 {
        '5'
    } else if d == 6 {
        '6'
    } else if d == 7 {
        '7'
    } else if d == 8 {
        '8'
    } else {
        '9'
    }
}

/// The decimal notation of `n`, without leading zeros.
pub open spec fn dec(n: nat) -> Seq<char>
    decreases n,
{
    if n < 10 {
        seq![digit_char(n as int)]
    } else {
        dec(n / 10).push(digit_char((n % 10) as int))
    }
}

/// The text of one run: nothing when empty, its values when it holds one or
/// two, and `first-last` when it holds three or more.
pub open spec fn token(run: Seq<u32>) -> Seq<char> {
    if run.len() > 2 {
        dec(run[0] as nat) + seq!['-'] + dec(run.last() as nat)
    } else if run.len() == 2 {
        dec(run[0] as nat) + seq![','] + dec(run[1] as nat)
    } else if run.len() == 1 {
        dec(run[0] as nat)
    } else {
        Seq::empty()
    }
}

/// The tokens of the non-empty runs, joined by commas.
pub open spec fn condensed(runs: Seq<Seq<u32>>) -> Seq<char>
    decreases runs.len(),
{
    if runs.len() == 0 {
        Seq::empty()
    } else {
        let prev = condensed(runs.drop_last());
        let t = token(runs.last());
        if runs.last().len() == 0 {
            prev
        } else if prev.len() == 0 {
            t
        } else {
            prev + seq![','] + t
        }
    }
}

fn digit_str(d: u32) -> (r: &'static str)
    requires
        d < 10,
    ensures
        r@ == seq![digit_char(d as int)],
{
    proof {
        reveal_strlit("0");
        reveal_strlit("1");
        reveal_strlit("2");
        reveal_strlit("3");
        reveal_strlit("4");
        reveal_strlit("5");
        reveal_strlit("6");
        reveal_strlit("7");
        reveal_strlit("8");
        reveal_strlit("9");
    }
    if d == 0 {
        "0"
    } else if d == 1 {
        "1"
    } else if d == 2 {
        "2"
    } else if d == 3 {
        "3"
    } else if d == 4 {
        "4"
    } else if d == 5 {
        "5"
    } else if d == 6 {
        "6"
    } else if d == 7 {
        "7"
    } else if d == 8 {
        "8"
    } else {
        "9"
    }
}

/// Appends the decimal notation of `n` to `out`.
fn push_decimal(out: &mut String, n: u32)
    ensures
        final(out)@ == old(out)@ + dec(n as nat),
    decreases n,
{
    if n >= 10 {
        push_decimal(out, n / 10);
    }
    let s = digit_str(n % 10);
    out.append(s);
    assert(final(out)@ =~= old(out)@ + dec(n as nat));
}

proof fn lemma_dec_nonempty(n: nat)
    ensures
        dec(n).len() > 0,
    decreases n,
{
    if n >= 10 {
        lemma_dec_nonempty(n / 10);
    }
}

/// Writes the runs as text: each non-empty run becomes its token, and the
/// tokens are joined by commas.
pub fn condense_ranges(xss: Vec<Vec<u32>>) -> (r: String)
    ensures
        r@ == condensed(runs_view(xss@)),
{
    let mut out = String::new();
    let mut written = false;
    let mut i: usize = 0;
    while i < xss.len()
        invariant
            i <= xss.len(),
            written == (out@.len() > 0),
            out@ == condensed(runs_view(xss@).subrange(0, i as int)),
        decreases xss.len() - i,
    {
        let ghost before = out@;
        let ghost done = runs_view(xss@).subrange(0, i as int + 1);
        proof {
            assert(done.drop_last() =~= runs_view(xss@).subrange(0, i as int));
            assert(done.last() == xss@[i as int]@);
        }
        let run = &xss[i];
        let m = run.len();
        if m > 0 {
            if written {
                out.append(",");
            }
            let first = run[0];
            let last = run[m - 1];
            push_decimal(&mut out, first);
            if m > 2 {
                out.append("-");
                push_decimal(&mut out, last);
            } else if m == 2 {
                out.append(",");
                push_decimal(&mut out, last);
            }
            proof {
                reveal_strlit(",");
                reveal_strlit("-");
                lemma_dec_nonempty(first as nat);
                if before.len() == 0 {
                    assert(out@ =~= token(done.last()));
                } else {
                    assert(out@ =~= before + seq![','] + token(done.last()));
                }
            }
            written = true;
        }
        i += 1;
    }
    proof {
        assert(runs_view(xss@).subrange(0, xss@.len() as int) =~= runs_view(xss@));
    }
    out
}

/// A non-empty run in which each value is one more than the one before it.
pub open spec fn is_run(r: Seq<u32>) -> bool {
    r.len() > 0 && forall|i: int| 0 <= i < r.len() - 1 ==> #[trigger] r[i + 1] == r[i] + 1
}

/// Grouping into runs loses, adds and reorders nothing: the runs put back
/// together give the values in their order. Each run is a non-empty run of
/// consecutive values, and each is maximal: the first value of a run never
/// follows the last value of the run before it.
pub proof fn lemma_runs_partition(xs: Seq<u32>)
    ensures
        runs_of(xs).flatten() == xs,
        forall|k: int| 0 <= k < runs_of(xs).len() ==> is_run(#[trigger] runs_of(xs)[k]),
        forall|k: int|
            0 <= k < runs_of(xs).len() - 1 ==> #[trigger] runs_of(xs)[k + 1][0] != runs_of(
                xs,
            )[k].last() + 1,
    decreases xs.len(),
{
    if xs.len() > 0 {
        let p = xs.drop_last();
        lemma_runs_partition(p);
        let prev = runs_of(p);
        let x = xs.last();
        let r = runs_of(xs);
        assert(xs =~= p.push(x));
        if prev.len() > 0 && prev.last().len() > 0 && prev.last().last() + 1 == x {
            let front = prev.drop_last();
            assert(prev =~= front.push(prev.last()));
            front.lemma_flatten_push(prev.last());
            assert(r =~= front.push(prev.last().push(x)));
            front.lemma_flatten_push(prev.last().push(x));
            assert(r.flatten() =~= xs);
            assert(is_run(prev[prev.len() - 1]));
            assert forall|k: int| 0 <= k < r.len() implies is_run(#[trigger] r[k]) by {
                if k < r.len() - 1 {
                    assert(r[k] == prev[k]);
                } else {
                    let run = r[k];
                    assert(run =~= prev.last().push(x));
                    assert forall|i: int| 0 <= i < run.len() - 1 implies #[trigger] run[i + 1]
                        == run[i] + 1 by {
                        if i < run.len() - 2 {
                            assert(run[i + 1] == prev.last()[i + 1]);
                        }
                    }
                }
            }
            assert forall|k: int| 0 <= k < r.len() - 1 implies #[trigger] r[k + 1][0] != r[k].last()
                + 1 by {
                assert(r[k] == prev[k]);
                if k + 1 < r.len() - 1 {
                    assert(r[k + 1] == prev[k + 1]);
                } else {
                    assert(r[k + 1][0] == prev[k + 1][0]);
                }
            }
        } else {
            prev.lemma_flatten_push(seq![x]);
            assert(r.flatten() =~= xs);
            assert forall|k: int| 0 <= k < r.len() implies is_run(#[trigger] r[k]) by {
                if k < r.len() - 1 {
                    assert(r[k] == prev[k]);
                }
            }
            assert forall|k: int| 0 <= k < r.len() - 1 implies #[trigger] r[k + 1][0] != r[k].last()
                + 1 by {
                assert(r[k] == prev[k]);
                if k + 1 < r.len() - 1 {
                    assert(r[k + 1] == prev[k + 1]);
                }
            }
        }
    }
}

proof fn lemma_dec_no_hyphen(n: nat)
    ensures
        !dec(n).contains('-'),
    decreases n,
{
    if n >= 10 {
        lemma_dec_no_hyphen(n / 10);
        let d = dec(n);
        assert forall|i: int| 0 <= i < d.len() implies d[i] != '-' by {
            if i < d.len() - 1 {
                assert(d[i] == dec(n / 10)[i]);
            }
        }
    }
}

/// A run of exactly two values is written as two numbers and never as a
/// range; a run of exactly three values is always written as a range.
pub proof fn lemma_range_from_three(run: Seq<u32>)
    ensures
        run.len() == 2 ==> !condensed(seq![run]).contains('-'),
        run.len() == 3 ==> condensed(seq![run]).contains('-'),
{
    assert(seq![run].drop_last() =~= Seq::<Seq<u32>>::empty());
    assert(seq![run].last() == run);
    assert(condensed(Seq::<Seq<u32>>::empty()) == Seq::<char>::empty());
    if run.len() == 2 {
        lemma_dec_no_hyphen(run[0] as nat);
        lemma_dec_no_hyphen(run[1] as nat);
        let a = dec(run[0] as nat);
        let b = dec(run[1] as nat);
        let t = a + seq![','] + b;
        assert forall|i: int| 0 <= i < t.len() implies t[i] != '-' by {
            if i < a.len() {
                assert(t[i] == a[i]);
            } else if i > a.len() {
                assert(t[i] == b[i - a.len() - 1]);
            }
        }
        assert(condensed(seq![run]) == t);
    }
    if run.len() == 3 {
        let a = dec(run[0] as nat);
        let t = a + seq!['-'] + dec(run.last() as nat);
        assert(t[a.len() as int] == '-');
        assert(condensed(seq![run]) == t);
    }
}

/// Runs that are all empty are written as nothing; so is no run at all.
pub proof fn lemma_empty_runs_condense_to_nothing(runs: Seq<Seq<u32>>)
    requires
        forall|k: int| 0 <= k < runs.len() ==> (#[trigger] runs[k]).len() == 0,
    ensures
        condensed(runs) == Seq::<char>::empty(),
    decreases runs.len(),
{
    if runs.len() > 0 {
        lemma_empty_runs_condense_to_nothing(runs.drop_last());
    }
}

} // verus!
