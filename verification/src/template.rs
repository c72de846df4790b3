//! Template strings with `{}` placeholders.

use crate::text::{from_chars, push_text, texts_of, to_chars};
use vstd::prelude::*;

verus! {

/// The state of filling a template: the text written, the number of
/// arguments used, and whether an opening brace was just read.
pub struct Filling {
    pub out: Seq<char>,
    pub used: int,
    pub in_brace: bool,
}

/// One character of the template read in state `st`.
pub open spec fn fill_step(st: Filling, c: char, args: Seq<Seq<char>>) -> Filling {
    if st.in_brace {
        if c == '}' {
            if st.used < args.len() {
                Filling { out: st.out + args[st.used], used: st.used + 1, in_brace: false }
            } else {
                Filling { out: st.out.push('{').push('}'), used: st.used, in_brace: false }
            }
        } else {
            Filling { out: st.out.push('{').push(c), used: st.used, in_brace: false }
        }
    } else if c == '{' {
        Filling { out: st.out, used: st.used, in_brace: true }
    } else {
        Filling { out: st.out.push(c), used: st.used, in_brace: false }
    }
}

/// The state after reading all of `template`.
pub open spec fn fill(template: Seq<char>, args: Seq<Seq<char>>) -> Filling
    decreases template.len(),
{
    if template.len() == 0 {
        Filling { out: Seq::empty(), used: 0, in_brace: false }
    } else {
        fill_step(fill(template.drop_last(), args), template.last(), args)
    }
}

/// The texts `args[from..]` one after the other.
pub open spec fn concat_from(args: Seq<Seq<char>>, from: int) -> Seq<char>
    decreases args.len() - from,
{
    if from < 0 || from >= args.len() {
        Seq::empty()
    } else {
        args[from] + concat_from(args, from + 1)
    }
}

/// The template with each `{}` replaced by the next argument, in order. A
/// `{}` for which no argument is left stays; arguments for which no `{}` is
/// left follow at the end; an opening brace before another character stays
/// with that character, and one at the very end is dropped.
pub open spec fn inject_spec(template: Seq<char>, args: Seq<Seq<char>>) -> Seq<char> {
    let st = fill(template, args);
    st.out + concat_from(args, st.used)
}

/// Template string injector. Replaces `{}` placeholders with provided args in order.
pub fn inject(template: &str, args: &[String]) -> (result: String)
    ensures
        result@ == inject_spec(template@, texts_of(args@)),
{
    let chars: Vec<char> = to_chars(template);
    let ghost texts = texts_of(args@);
    let mut out: Vec<char> = Vec::new();
    let mut next: usize = 0;
    let mut in_brace: bool = false;
    let mut i: usize = 0;
    proof {
        assert(chars@.take(0) =~= Seq::<char>::empty());
    }
    while i < chars.len()
        invariant
            i <= chars.len(),
            next <= args.len(),
            texts == texts_of(args@),
            fill(chars@.take(i as int), texts) == (Filling {
                out: out@,
                used: next as int,
                in_brace,
            }),
        decreases chars.len() - i,
    {
        let c: char = chars[i];
        proof {
            assert(chars@.take(i + 1).drop_last() =~= chars@.take(i as int));
            assert(chars@.take(i + 1).last() == c);
        }
        if in_brace {
            if c == '}' {
                if next < args.len() {
                    push_text(&mut out, args[next].as_str());
                    next += 1;
                } else {
                    out.push('{');
                    out.push('}');
                }
                in_brace = false;
            } else {
                out.push('{');
                out.push(c);
                in_brace = false;
            }
        } else if c == '{' {
            in_brace = true;
        } else {
            out.push(c);
        }
        i += 1;
    }
    proof {
        assert(chars@.take(chars.len() as int) =~= chars@);
    }

    // consume extra args if there are any (either by design or by accident)
    let ghost filled = out@;
    let ghost used = next as int;
    while next < args.len()
        invariant
            used <= next <= args.len(),
            texts == texts_of(args@),
            out@ + concat_from(texts, next as int) == filled + concat_from(texts, used),
        decreases args.len() - next,
    {
        let ghost before = out@;
        push_text(&mut out, args[next].as_str());
        proof {
            assert(concat_from(texts, next as int) == texts[next as int] + concat_from(
                texts,
                next + 1,
            ));
            assert(out@ + concat_from(texts, next + 1) =~= before + concat_from(
                texts,
                next as int,
            ));
        }
        next += 1;
    }
    proof {
        assert(concat_from(texts, next as int) =~= Seq::<char>::empty());
        assert(out@ =~= filled + concat_from(texts, used));
    }
    from_chars(out.as_slice())
}

} // verus!
