//! Positional `{}` placeholders: counting them and substituting
//! arguments for them.
//!
//! A template is scanned left to right: `{{` and `}}` are escaped
//! literal braces, `{}` is one positional placeholder, and everything
//! else stands for itself.

use vstd::prelude::*;
use crate::chars::push_char;
use vstd::string::*;

verus! {

/// Number of `{}` placeholders in a template, with escaped `{{` and
/// `}}` passed over.
pub open spec fn ph_count(s: Seq<char>) -> nat
    decreases s.len(),
{
    if s.len() >= 2 && s[0] == '{' && s[1] == '{' {
        ph_count(s.skip(2))
    } else if s.len() >= 2 && s[0] == '}' && s[1] == '}' {
        ph_count(s.skip(2))
    } else if s.len() >= 2 && s[0] == '{' && s[1] == '}' {
        1 + ph_count(s.skip(2))
    } else if s.len() == 0 {
        0
    } else {
        ph_count(s.skip(1))
    }
}

/// The result of substituting `args` positionally into template `t`:
/// `{{` becomes `{`, `}}` becomes `}`, the k-th `{}` becomes the k-th
/// argument (placeholders beyond the arguments are dropped), and every
/// other character stands for itself.
pub open spec fn subst(t: Seq<char>, args: Seq<Seq<char>>) -> Seq<char>
    decreases t.len(),
{
    if t.len() >= 2 && t[0] == '{' && t[1] == '{' {
        seq!['{'] + subst(t.skip(2), args)
    } else if t.len() >= 2 && t[0] == '}' && t[1] == '}' {
        seq!['}'] + subst(t.skip(2), args)
    } else if t.len() >= 2 && t[0] == '{' && t[1] == '}' {
        if args.len() > 0 {
            args[0] + subst(t.skip(2), args.drop_first())
        } else {
            subst(t.skip(2), args)
        }
    } else if t.len() == 0 {
        Seq::empty()
    } else {
        seq![t[0]] + subst(t.skip(1), args)
    }
}

/// The views of a vector of strings.
pub open spec fn str_views(s: Seq<String>) -> Seq<Seq<char>> {
    s.map_values(|x: String| x@)
}

/// Count the `{}` placeholders of a template; mirrors [`ph_count`].
pub fn count_placeholders(t: &Vec<char>) -> (r: usize)
    ensures
        r as nat == ph_count(t@),
{
    let n: usize = t.len();
    proof {
        assert(t@.skip(0) =~= t@);
    }
    let mut i: usize = 0;
    let mut c: usize = 0;
    while i < n
        invariant
            i <= n,
            n == t@.len(),
            2 * c <= i,
            ph_count(t@) == c + ph_count(t@.skip(i as int)),
        decreases n - i,
    {
        let ghost rest = t@.skip(i as int);
        assert(rest.len() == n - i);
        assert(rest[0] == t@[i as int]);
        if i + 1 < n {
            assert(rest[1] == t@[i as int + 1]);
        }
        if i + 1 < n && t[i] == '{' && t[i + 1] == '{' {
            proof {
                assert(rest.skip(2) =~= t@.skip(i as int + 2));
            }
            i = i + 2;
        } else if i + 1 < n && t[i] == '}' && t[i + 1] == '}' {
            proof {
                assert(rest.skip(2) =~= t@.skip(i as int + 2));
            }
            i = i + 2;
        } else if i + 1 < n && t[i] == '{' && t[i + 1] == '}' {
            proof {
                assert(rest.skip(2) =~= t@.skip(i as int + 2));
            }
            c = c + 1;
            i = i + 2;
        } else {
            proof {
                assert(rest.skip(1) =~= t@.skip(i as int + 1));
            }
            i = i + 1;
        }
    }
    assert(t@.skip(n as int) =~= Seq::<char>::empty());
    c
}

/// Substitute `args` positionally into `t` and append the result to
/// `out`; mirrors [`subst`].
pub fn push_substituted(out: &mut String, t: &Vec<char>, args: &Vec<String>)
    ensures
        final(out)@ == old(out)@ + subst(t@, str_views(args@)),
{
    let ghost av = str_views(args@);
    let n: usize = t.len();
    let m: usize = args.len();
    proof {
        assert(t@.skip(0) =~= t@);
        assert(av.skip(0) =~= av);
    }
    let mut i: usize = 0;
    let mut a: usize = 0;
    while i < n
        invariant
            i <= n,
            a <= m,
            n == t@.len(),
            m == av.len(),
            av == str_views(args@),
            old(out)@ + subst(t@, av) == out@ + subst(t@.skip(i as int), av.skip(a as int)),
        decreases n - i,
    {
        let ghost rest = t@.skip(i as int);
        let ghost arest = av.skip(a as int);
        assert(rest.len() == n - i);
        assert(rest[0] == t@[i as int]);
        if i + 1 < n {
            assert(rest[1] == t@[i as int + 1]);
        }
        let ghost out0 = out@;
        if i + 1 < n && t[i] == '{' && t[i + 1] == '{' {
            push_char(out, '{');
            proof {
                assert(rest.skip(2) =~= t@.skip(i as int + 2));
                assert(out0 + (seq!['{'] + subst(rest.skip(2), arest)) =~= (out0 + seq!['{'])
                    + subst(rest.skip(2), arest));
            }
            i = i + 2;
        } else if i + 1 < n && t[i] == '}' && t[i + 1] == '}' {
            push_char(out, '}');
            proof {
                assert(rest.skip(2) =~= t@.skip(i as int + 2));
                assert(out0 + (seq!['}'] + subst(rest.skip(2), arest)) =~= (out0 + seq!['}'])
                    + subst(rest.skip(2), arest));
            }
            i = i + 2;
        } else if i + 1 < n && t[i] == '{' && t[i + 1] == '}' {
            proof {
                assert(rest.skip(2) =~= t@.skip(i as int + 2));
            }
            if a < m {
                out.append(args[a].as_str());
                proof {
                    assert(arest[0] == av[a as int]);
                    assert(av[a as int] == args@[a as int]@);
                    assert(arest.drop_first() =~= av.skip(a as int + 1));
                    assert(out0 + (arest[0] + subst(rest.skip(2), arest.drop_first())) =~= (out0
                        + arest[0]) + subst(rest.skip(2), arest.drop_first()));
                }
                a = a + 1;
            } else {
                assert(arest.len() == 0);
            }
            i = i + 2;
        } else {
            push_char(out, t[i]);
            proof {
                assert(rest.skip(1) =~= t@.skip(i as int + 1));
                assert(out0 + (seq![rest[0]] + subst(rest.skip(1), arest)) =~= (out0 + seq![rest[0]])
                    + subst(rest.skip(1), arest));
            }
            i = i + 1;
        }
    }
    proof {
        assert(t@.skip(n as int) =~= Seq::<char>::empty());
        assert(out@ + subst(t@.skip(n as int), av.skip(a as int)) =~= out@);
        assert(old(out)@ + subst(t@, av) =~= out@ + subst(t@.skip(n as int), av.skip(a as int)));
    }
}

} // verus!

