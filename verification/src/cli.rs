//! Command-line options and the joining of several inputs into one text.
use vstd::prelude::*;
use crate::normalize::views;
use crate::text::{chars_of, push_char, same_text};

verus! {

/// What the command line asks for.
pub struct Options {
    /// Input paths, in order; "-" stands for standard input.
    pub paths: Vec<String>,
    /// Whether to sort the cleaned names.
    pub sort: bool,
    /// How many names to draw, if sampling was asked for.
    pub sample: Option<usize>,
}

pub open spec fn is_digit(c: char) -> bool {
    '0' <= c <= '9'
}

/// The value of a string of decimal digits.
pub open spec fn decimal_value(d: Seq<char>) -> nat
    decreases d.len(),
{
    if d.len() == 0 {
        0
    } else {
        decimal_value(d.drop_last()) * 10 + (d.last() as nat - '0' as nat) as nat
    }
}

pub open spec fn all_digits(d: Seq<char>) -> bool {
    forall|i: int| 0 <= i < d.len() ==> is_digit(#[trigger] d[i])
}

/// A count as `usize::from_str` reads it: an optional `+`, then one or more
/// decimal digits whose value fits in a `usize`.
pub open spec fn parse_count(s: Seq<char>) -> Option<nat> {
    let d = if s.len() > 0 && s[0] == '+' {
        s.skip(1)
    } else {
        s
    };
    if d.len() > 0 && all_digits(d) && decimal_value(d) <= usize::MAX {
        Some(decimal_value(d))
    } else {
        None
    }
}

proof fn lemma_decimal_value_grows(d: Seq<char>, i: int)
    requires
        0 <= i <= d.len(),
        forall|k: int| 0 <= k < d.len() ==> is_digit(#[trigger] d[k]),
    ensures
        decimal_value(d.take(i)) <= decimal_value(d),
    decreases d.len() - i,
{
    if i < d.len() {
        lemma_decimal_value_grows(d, i + 1);
        assert(d.take(i + 1).drop_last() =~= d.take(i));
    } else {
        assert(d.take(i) =~= d);
    }
}

/// Read a count the way `usize::from_str` does.
pub fn parse_usize(s: &str) -> (r: Option<usize>)
    ensures
        r matches Some(n) ==> parse_count(s@) == Some(n as nat),
        r is None ==> parse_count(s@) is None,
{
    let chars = chars_of(s);
    let start: usize = if chars.len() > 0 && chars[0] == '+' {
        1
    } else {
        0
    };
    let ghost d = if chars@.len() > 0 && chars@[0] == '+' {
        chars@.skip(1)
    } else {
        chars@
    };
    assert(d =~= chars@.skip(start as int));
    if start == chars.len() {
        return None;
    }
    let mut k = start;
    while k < chars.len()
        invariant
            start <= k <= chars.len(),
            chars@ == s@,
            d == if s@.len() > 0 && s@[0] == '+' {
                s@.skip(1)
            } else {
                s@
            },
            d == chars@.skip(start as int),
            forall|j: int| 0 <= j < k - start ==> is_digit(#[trigger] d[j]),
        decreases chars.len() - k,
    {
        assert(d[k - start] == chars@[k as int]);
        if !('0' <= chars[k] && chars[k] <= '9') {
            assert(!is_digit(d[k - start]));
            assert(!(forall|i: int| 0 <= i < d.len() ==> is_digit(#[trigger] d[i])));
            assert(!all_digits(d));
            assert(parse_count(s@) is None);
            return None;
        }
        k = k + 1;
    }
    let mut value: usize = 0;
    let mut k = start;
    while k < chars.len()
        invariant
            start <= k <= chars.len(),
            chars@ == s@,
            d == if s@.len() > 0 && s@[0] == '+' {
                s@.skip(1)
            } else {
                s@
            },
            d == chars@.skip(start as int),
            d.len() == chars.len() - start,
            forall|j: int| 0 <= j < d.len() ==> is_digit(#[trigger] d[j]),
            value == decimal_value(d.take(k - start)),
        decreases chars.len() - k,
    {
        assert(d[k - start] == chars@[k as int]);
        assert(is_digit(chars@[k as int]));
        let digit = (chars[k] as u32 - '0' as u32) as usize;
        proof {
            assert(d.take(k - start + 1).drop_last() =~= d.take(k - start));
            assert(d.take(k - start + 1).last() == chars@[k as int]);
        }
        let ghost next = decimal_value(d.take(k - start + 1));
        assert(next == value * 10 + digit);
        if value > (usize::MAX - digit) / 10 {
            proof {
                assert(next > usize::MAX) by (nonlinear_arith)
                    requires
                        value > (usize::MAX - digit) / 10,
                        next == value * 10 + digit,
                        digit <= 9,
                ;
                lemma_decimal_value_grows(d, k - start + 1);
                assert(decimal_value(d) > usize::MAX);
                assert(s@ == chars@);
                assert(parse_count(s@) is None);
            }
            return None;
        }
        assert(value * 10 + digit <= usize::MAX) by (nonlinear_arith)
            requires
                value <= (usize::MAX - digit) / 10,
                digit <= 9,
        ;
        value = value * 10 + digit;
        k = k + 1;
    }
    assert(d.take(d.len() as int) =~= d);
    Some(value)
}

/// The message for `--sample` given as the last argument.
pub open spec fn missing_count_message() -> Seq<char> {
    "--sample requires a number of names to draw"@
}

/// The message for `--sample` followed by something that is not a count.
pub open spec fn bad_count_message(value: Seq<char>) -> Seq<char> {
    "--sample requires a number, got: "@ + value
}

/// Paths, sort flag and sample count, as read from an argument list.
pub type ParsedArgs = (Seq<Seq<char>>, bool, Option<nat>);

/// The options an argument list asks for, or the message for the first
/// problem in it. `--sort` may appear anywhere; `--sample` takes the next
/// argument as its count, and a later `--sample` overrides an earlier one;
/// every other argument is a path.
pub open spec fn parsed_args(args: Seq<Seq<char>>) -> Result<ParsedArgs, Seq<char>>
    decreases args.len(),
{
    if args.len() == 0 {
        Ok((Seq::empty(), false, None))
    } else if args[0] == "--sort"@ {
        resume(Seq::empty(), true, None, parsed_args(args.skip(1)))
    } else if args[0] == "--sample"@ {
        if args.len() < 2 {
            Err(missing_count_message())
        } else {
            match parse_count(args[1]) {
                None => Err(bad_count_message(args[1])),
                Some(n) => resume(Seq::empty(), false, Some(n), parsed_args(args.skip(2))),
            }
        }
    } else {
        resume(seq![args[0]], false, None, parsed_args(args.skip(1)))
    }
}

/// What is read from some arguments followed by the rest, given what the
/// rest reads as.
pub open spec fn resume(
    paths: Seq<Seq<char>>,
    sort: bool,
    sample: Option<nat>,
    rest: Result<ParsedArgs, Seq<char>>,
) -> Result<ParsedArgs, Seq<char>> {
    match rest {
        Ok((p, s, n)) => Ok(
            (
                paths + p,
                sort || s,
                if n is Some {
                    n
                } else {
                    sample
                },
            ),
        ),
        Err(e) => Err(e),
    }
}

/// The spec view of an `Options`.
pub open spec fn options_view(o: Options) -> ParsedArgs {
    (
        views(o.paths@),
        o.sort,
        match o.sample {
            Some(n) => Some(n as nat),
            None => None,
        },
    )
}

proof fn lemma_resume_compose(
    p1: Seq<Seq<char>>,
    s1: bool,
    n1: Option<nat>,
    p2: Seq<Seq<char>>,
    s2: bool,
    n2: Option<nat>,
    rest: Result<ParsedArgs, Seq<char>>,
)
    ensures
        resume(p1, s1, n1, resume(p2, s2, n2, rest)) == resume(
            p1 + p2,
            s1 || s2,
            if n2 is Some {
                n2
            } else {
                n1
            },
            rest,
        ),
{
    match rest {
        Ok((p, s, n)) => {
            assert(p1 + (p2 + p) =~= (p1 + p2) + p);
        },
        Err(_) => {},
    }
}

/// Parse command-line arguments into options. Accepts `--sort` and
/// `--sample N` in any position, plus any number of positional arguments:
/// input paths, or "-" for standard input.
pub fn parse_args(args: &[String]) -> (r: Result<Options, String>)
    ensures
        r matches Ok(o) ==> parsed_args(views(args@)) == Ok::<ParsedArgs, Seq<char>>(options_view(o)),
        r matches Err(e) ==> parsed_args(views(args@)) == Err::<ParsedArgs, Seq<char>>(e@),
{
    let ghost a = views(args@);
    let mut paths: Vec<String> = Vec::new();
    let mut sort = false;
    let mut sample: Option<usize> = None;
    let mut i: usize = 0;
    proof {
        assert(a.skip(0) =~= a);
        lemma_resume_identity(parsed_args(a));
    }
    while i < args.len()
        invariant
            i <= args.len(),
            a == views(args@),
            parsed_args(a) == resume(
                views(paths@),
                sort,
                match sample {
                    Some(n) => Some(n as nat),
                    None => None,
                },
                parsed_args(a.skip(i as int)),
            ),
        decreases args.len() - i,
    {
        let ghost sample_view = match sample {
            Some(n) => Some(n as nat),
            None => None,
        };
        let ghost rest = a.skip(i as int);
        proof {
            assert(rest.len() > 0);
            assert(rest[0] == args@[i as int]@);
        }
        if same_text(args[i].as_str(), "--sort") {
            proof {
                assert(rest.skip(1) =~= a.skip(i + 1));
                lemma_resume_compose(views(paths@), sort, sample_view, Seq::empty(), true, None, parsed_args(a.skip(i + 1)));
                assert(views(paths@) + Seq::<Seq<char>>::empty() =~= views(paths@));
            }
            sort = true;
            i = i + 1;
        } else if same_text(args[i].as_str(), "--sample") {
            if i + 1 >= args.len() {
                return Err(String::from_str("--sample requires a number of names to draw"));
            }
            proof {
                assert(rest[1] == args@[i + 1]@);
            }
            match parse_usize(args[i + 1].as_str()) {
                None => {
                    let mut message = String::from_str("--sample requires a number, got: ");
                    message.append(args[i + 1].as_str());
                    return Err(message);
                },
                Some(n) => {
                    proof {
                        assert(rest.skip(2) =~= a.skip(i + 2));
                        lemma_resume_compose(
                            views(paths@),
                            sort,
                            sample_view,
                            Seq::empty(),
                            false,
                            Some(n as nat),
                            parsed_args(a.skip(i + 2)),
                        );
                        assert(views(paths@) + Seq::<Seq<char>>::empty() =~= views(paths@));
                    }
                    sample = Some(n);
                    i = i + 2;
                },
            }
        } else {
            let path = args[i].clone();
            proof {
                assert(rest.skip(1) =~= a.skip(i + 1));
                lemma_resume_compose(views(paths@), sort, sample_view, seq![path@], false, None, parsed_args(a.skip(i + 1)));
                assert(views(paths@.push(path)) =~= views(paths@) + seq![path@]);
            }
            paths.push(path);
            i = i + 1;
        }
    }
    proof {
        assert(a.skip(i as int) =~= Seq::<Seq<char>>::empty());
        assert(views(paths@) + Seq::<Seq<char>>::empty() =~= views(paths@));
    }
    Ok(Options { paths, sort, sample })
}

proof fn lemma_resume_identity(rest: Result<ParsedArgs, Seq<char>>)
    ensures
        resume(Seq::empty(), false, None, rest) == rest,
{
    match rest {
        Ok((p, s, n)) => {
            assert(Seq::<Seq<char>>::empty() + p =~= p);
        },
        Err(_) => {},
    }
}

/// The text read from several inputs: the inputs in order, with a newline
/// put between two of them wherever the text so far is non-empty and does
/// not already end with one, so that the last entry of one input does not
/// run into the first entry of the next.
pub open spec fn joined_inputs(pieces: Seq<Seq<char>>) -> Seq<char>
    decreases pieces.len(),
{
    if pieces.len() == 0 {
        Seq::empty()
    } else {
        let prev = joined_inputs(pieces.drop_last());
        if prev.len() > 0 && prev.last() != '\n' {
            prev + seq!['\n'] + pieces.last()
        } else {
            prev + pieces.last()
        }
    }
}

/// Concatenate the contents of several inputs, in order, joining them with a
/// newline where needed so entries from the end of one input don't fuse with
/// entries at the start of the next.
pub fn join_inputs(pieces: &Vec<String>) -> (r: String)
    ensures
        r@ == joined_inputs(views(pieces@)),
{
    let ghost ps = views(pieces@);
    let mut combined = String::new();
    let mut last: Option<char> = None;
    let mut i: usize = 0;
    while i < pieces.len()
        invariant
            i <= pieces.len(),
            ps == views(pieces@),
            combined@ == joined_inputs(ps.take(i as int)),
            last is None <==> combined@.len() == 0,
            last matches Some(c) ==> combined@.len() > 0 && combined@.last() == c,
        decreases pieces.len() - i,
    {
        proof {
            assert(ps.take(i + 1 as int).drop_last() =~= ps.take(i as int));
            assert(ps.take(i + 1 as int).last() == pieces@[i as int]@);
        }
        let needs_newline = match last {
            Some(c) => c != '\n',
            None => false,
        };
        if needs_newline {
            push_char(&mut combined, '\n');
        }
        let piece = chars_of(pieces[i].as_str());
        combined.append(pieces[i].as_str());
        if piece.len() > 0 {
            last = Some(piece[piece.len() - 1]);
        } else if needs_newline {
            last = Some('\n');
        }
        i = i + 1;
    }
    assert(ps.take(pieces.len() as int) =~= ps);
    combined
}

// ---------------------------------------------------------------------------
// Laws of argument parsing
// ---------------------------------------------------------------------------

/// Arguments are read independently: after a run of arguments that reads
/// without a problem, the arguments that follow are read as if on their own,
/// and what they ask for is combined with what came before.
pub proof fn law_parse_concatenation(a: Seq<Seq<char>>, b: Seq<Seq<char>>)
    requires
        parsed_args(a) is Ok,
    ensures
        parsed_args(a + b) == match parsed_args(a) {
            Ok((p, s, n)) => resume(p, s, n, parsed_args(b)),
            Err(e) => Err(e),
        },
    decreases a.len(),
{
    if a.len() == 0 {
        assert(a + b =~= b);
        lemma_resume_identity(parsed_args(b));
    } else {
        let ab = a + b;
        assert(ab[0] == a[0]);
        if a[0] == "--sort"@ {
            assert(ab.skip(1) =~= a.skip(1) + b);
            law_parse_concatenation(a.skip(1), b);
            if let Ok((p, s, n)) = parsed_args(a.skip(1)) {
                lemma_resume_compose(Seq::empty(), true, None, p, s, n, parsed_args(b));
            }
        } else if a[0] == "--sample"@ {
            assert(ab[1] == a[1]);
            assert(ab.skip(2) =~= a.skip(2) + b);
            law_parse_concatenation(a.skip(2), b);
            let n0 = parse_count(a[1]).unwrap();
            if let Ok((p, s, n)) = parsed_args(a.skip(2)) {
                lemma_resume_compose(Seq::empty(), false, Some(n0), p, s, n, parsed_args(b));
            }
        } else {
            assert(ab.skip(1) =~= a.skip(1) + b);
            law_parse_concatenation(a.skip(1), b);
            if let Ok((p, s, n)) = parsed_args(a.skip(1)) {
                lemma_resume_compose(seq![a[0]], false, None, p, s, n, parsed_args(b));
            }
        }
    }
}

/// `--sort` may stand anywhere between complete arguments: inserting it
/// leaves the paths and the sample count as they were and turns sorting on.
pub proof fn law_sort_flag_anywhere(a: Seq<Seq<char>>, b: Seq<Seq<char>>)
    requires
        parsed_args(a) is Ok,
    ensures
        parsed_args(a + seq!["--sort"@] + b) == match parsed_args(a + b) {
            Ok((p, s, n)) => Ok::<ParsedArgs, Seq<char>>((p, true, n)),
            Err(e) => Err(e),
        },
{
    let sort_flag = seq!["--sort"@];
    assert(a + sort_flag + b =~= a + (sort_flag + b));
    law_parse_concatenation(a, sort_flag + b);
    law_parse_concatenation(a, b);
    assert((sort_flag + b)[0] == "--sort"@);
    assert((sort_flag + b).skip(1) =~= b);
    if let Ok((p, s, n)) = parsed_args(a) {
        match parsed_args(b) {
            Ok((pb, sb, nb)) => {
                assert(Seq::<Seq<char>>::empty() + pb =~= pb);
            },
            Err(_) => {},
        }
    }
}

} // verus!
