//! Sanitizing and normalizing of filesystem paths given as text, without
//! looking at the filesystem. The separator is `/`.

use crate::text::{from_chars, to_chars};
use vstd::prelude::*;

verus! {

/// The characters that never belong in a path: NUL and the other control
/// characters up to `\x1F` (newline and carriage return among them), the
/// backslash, and DEL.
pub open spec fn suspicious(c: char) -> bool {
    c as u32 <= 0x1F || c == '\\' || c == '\x7F'
}

/// The characters that a shell may interpret: wildcards, quotes,
/// redirection, piping, separators and brackets.
pub open spec fn suspicious_strict(c: char) -> bool {
    c == '*' || c == '?' || c == '"' || c == '\'' || c == '<' || c == '>' || c == '|' || c == ';'
        || c == '&' || c == '!' || c == '$' || c == '`' || c == '(' || c == ')' || c == '['
        || c == ']' || c == '{' || c == '}'
}

/**
Whether a character definitely can be considered "suspicious"
in the context of a filesystem path.

This function flags the following:
- Null character, newline and carriage return
- Backslash used as an escape character
- Control characters (`\x01`..=`\x1F` and `\x7F`)
*/
pub fn is_suspicious_char(c: char) -> (b: bool)
    ensures
        b == suspicious(c),
{
    c == '\0' || c == '\n' || c == '\r' || c == '\\' || ('\x01' <= c && c <= '\x1F') || c == '\x7F'
}

/// More strict version of `is_suspicious_char()`: flags the characters that
/// a shell may interpret.
pub fn is_suspicious_strict(c: char) -> (b: bool)
    ensures
        b == suspicious_strict(c),
{
    c == '*' || c == '?' || c == '"' || c == '\'' || c == '<' || c == '>' || c == '|' || c == ';'
        || c == '&' || c == '!' || c == '$' || c == '`' || c == '(' || c == ')' || c == '['
        || c == ']' || c == '{' || c == '}'
}

/// Whether sanitizing removes `c`: in strict mode the characters that a
/// shell may interpret, else the characters that never belong in a path.
pub open spec fn removed(c: char, strict: bool) -> bool {
    if strict {
        suspicious_strict(c)
    } else {
        suspicious(c)
    }
}

/// `s` without the characters that sanitizing removes.
pub open spec fn sanitize(s: Seq<char>, strict: bool) -> Seq<char> {
    s.filter(|c: char| !removed(c, strict))
}

/// The pieces of `s` between its separators, empty ones included.
pub open spec fn split_path(s: Seq<char>) -> Seq<Seq<char>>
    decreases s.len(),
{
    if s.len() == 0 {
        seq![Seq::<char>::empty()]
    } else {
        let p = split_path(s.drop_last());
        if s.last() == '/' {
            p.push(Seq::<char>::empty())
        } else {
            p.update(p.len() - 1, p.last().push(s.last()))
        }
    }
}

/// `piece` consists of dots only; the empty piece does.
pub open spec fn all_dots(piece: Seq<char>) -> bool {
    forall|i: int| 0 <= i < piece.len() ==> piece[i] == '.'
}

/// `piece` is `..`.
pub open spec fn is_parent(piece: Seq<char>) -> bool {
    piece.len() == 2 && piece[0] == '.' && piece[1] == '.'
}

/// One piece applied to the names kept so far: `..` drops the last name if
/// there is one, a piece of dots only or an empty piece changes nothing, and
/// any other piece is kept.
pub open spec fn apply_piece(kept: Seq<Seq<char>>, piece: Seq<char>) -> Seq<Seq<char>> {
    if is_parent(piece) {
        if kept.len() > 0 {
            kept.drop_last()
        } else {
            kept
        }
    } else if all_dots(piece) {
        kept
    } else {
        kept.push(piece)
    }
}

/// The names that remain when the pieces are applied from left to right.
pub open spec fn resolve(pieces: Seq<Seq<char>>) -> Seq<Seq<char>>
    decreases pieces.len(),
{
    if pieces.len() == 0 {
        Seq::empty()
    } else {
        apply_piece(resolve(pieces.drop_last()), pieces.last())
    }
}

/// The names joined by the separator, after `prefix`.
pub open spec fn join_names(prefix: Seq<char>, names: Seq<Seq<char>>) -> Seq<char>
    decreases names.len(),
{
    if names.len() == 0 {
        prefix
    } else if names.len() == 1 {
        prefix + names[0]
    } else {
        join_names(prefix, names.drop_last()) + seq!['/'] + names.last()
    }
}

/// The normalized form of the path `s`: sanitized, relative components
/// resolved, with the leading separator kept if there is one.
pub open spec fn normalize_spec(s: Seq<char>, strict: bool) -> Seq<char> {
    let clean = sanitize(s, strict);
    let root = if clean.len() > 0 && clean[0] == '/' {
        seq!['/']
    } else {
        Seq::<char>::empty()
    };
    join_names(root, resolve(split_path(clean)))
}

/// The views of the names in `v`.
pub open spec fn names_of(v: Seq<Vec<char>>) -> Seq<Seq<char>> {
    v.map_values(|n: Vec<char>| n@)
}

fn sanitize_chars(s: &[char], strict: bool) -> (out: Vec<char>)
    ensures
        out@ == sanitize(s@, strict),
{
    let mut out: Vec<char> = Vec::new();
    let mut i: usize = 0;
    while i < s.len()
        invariant
            i <= s.len(),
            out@ == sanitize(s@.take(i as int), strict),
        decreases s.len() - i,
    {
        let c: char = s[i];
        let bad: bool = if strict {
            is_suspicious_strict(c)
        } else {
            is_suspicious_char(c)
        };
        proof {
            assert(s@.take(i + 1).drop_last() =~= s@.take(i as int));
            reveal(Seq::filter);
        }
        if !bad {
            out.push(c);
        }
        i += 1;
    }
    proof {
        assert(s@.take(s.len() as int) =~= s@);
    }
    out
}

fn split_chars(s: &[char]) -> (out: Vec<Vec<char>>)
    ensures
        names_of(out@) == split_path(s@),
{
    let mut done: Vec<Vec<char>> = Vec::new();
    let mut cur: Vec<char> = Vec::new();
    let mut i: usize = 0;
    proof {
        assert(s@.take(0) =~= Seq::<char>::empty());
        assert(names_of(done@).push(cur@) =~= split_path(s@.take(0)));
    }
    while i < s.len()
        invariant
            i <= s.len(),
            names_of(done@).push(cur@) == split_path(s@.take(i as int)),
        decreases s.len() - i,
    {
        let c: char = s[i];
        proof {
            assert(s@.take(i + 1).drop_last() =~= s@.take(i as int));
            assert(s@.take(i + 1).last() == c);
        }
        let ghost before = names_of(done@).push(cur@);
        if c == '/' {
            done.push(cur);
            cur = Vec::new();
            proof {
                assert(names_of(done@) =~= before);
            }
        } else {
            cur.push(c);
            proof {
                assert(names_of(done@).push(cur@) =~= before.update(
                    before.len() - 1,
                    before.last().push(c),
                ));
            }
        }
        i += 1;
    }
    proof {
        assert(s@.take(s.len() as int) =~= s@);
    }
    let ghost before = names_of(done@).push(cur@);
    done.push(cur);
    proof {
        assert(names_of(done@) =~= before);
    }
    done
}

fn piece_is_all_dots(piece: &Vec<char>) -> (b: bool)
    ensures
        b == all_dots(piece@),
{
    let mut i: usize = 0;
    while i < piece.len()
        invariant
            i <= piece.len(),
            forall|j: int| 0 <= j < i ==> piece@[j] == '.',
        decreases piece.len() - i,
    {
        if piece[i] != '.' {
            return false;
        }
        i += 1;
    }
    true
}

fn resolve_pieces(pieces: Vec<Vec<char>>) -> (kept: Vec<Vec<char>>)
    ensures
        names_of(kept@) == resolve(names_of(pieces@)),
{
    let mut pieces = pieces;
    let ghost all = names_of(pieces@);
    let mut kept: Vec<Vec<char>> = Vec::new();
    let n: usize = pieces.len();
    let mut i: usize = 0;
    proof {
        assert(all.take(0) =~= Seq::<Seq<char>>::empty());
    }
    while i < n
        invariant
            i <= n,
            n == pieces.len(),
            all.len() == n,
            forall|j: int| i <= j < n ==> pieces@[j]@ == all[j],
            names_of(kept@) == resolve(all.take(i as int)),
        decreases n - i,
    {
        let mut piece: Vec<char> = Vec::new();
        let ghost old_pieces = pieces@;
        std::mem::swap(&mut pieces[i], &mut piece);
        proof {
            assert(piece@ == all[i as int]);
            assert(all.take(i + 1).drop_last() =~= all.take(i as int));
            assert(all.take(i + 1).last() == piece@);
        }
        let ghost before = names_of(kept@);
        let parent: bool = piece.len() == 2 && piece[0] == '.' && piece[1] == '.';
        if parent {
            if kept.len() > 0 {
                kept.pop();
                proof {
                    assert(names_of(kept@) =~= before.drop_last());
                }
            }
        } else if piece_is_all_dots(&piece) {
        } else {
            kept.push(piece);
            proof {
                assert(names_of(kept@) =~= before.push(all[i as int]));
            }
        }
        i += 1;
    }
    proof {
        assert(all.take(n as int) =~= all);
    }
    kept
}

fn join_chars(root: bool, names: &Vec<Vec<char>>) -> (out: Vec<char>)
    ensures
        out@ == join_names(
            if root {
                seq!['/']
            } else {
                Seq::<char>::empty()
            },
            names_of(names@),
        ),
{
    let ghost prefix = if root {
        seq!['/']
    } else {
        Seq::<char>::empty()
    };
    let ghost all = names_of(names@);
    let mut out: Vec<char> = Vec::new();
    if root {
        out.push('/');
    }
    proof {
        assert(out@ =~= prefix);
        assert(all.take(0) =~= Seq::<Seq<char>>::empty());
    }
    let mut i: usize = 0;
    while i < names.len()
        invariant
            i <= names.len(),
            all == names_of(names@),
            out@ == join_names(prefix, all.take(i as int)),
        decreases names.len() - i,
    {
        if i > 0 {
            out.push('/');
        }
        let ghost sofar = out@;
        let name: &Vec<char> = &names[i];
        let mut k: usize = 0;
        while k < name.len()
            invariant
                k <= name.len(),
                out@ == sofar + name@.take(k as int),
            decreases name.len() - k,
        {
            out.push(name[k]);
            proof {
                assert(name@.take(k + 1) =~= name@.take(k as int).push(name@[k as int]));
                assert(out@ =~= sofar + name@.take(k + 1));
            }
            k += 1;
        }
        proof {
            assert(name@.take(name.len() as int) =~= name@);
            assert(all.take(i + 1).drop_last() =~= all.take(i as int));
            assert(all.take(i + 1).last() == name@);
            if i == 0 {
                assert(all.take(1).len() == 1);
                assert(all.take(1)[0] == name@);
            }
        }
        i += 1;
    }
    proof {
        assert(all.take(names.len() as int) =~= all);
    }
    out
}

/**
Normalize a string path by removing suspicious characters and resolving
relative path components (e.g. `.` and `..`).

The path need not exist on the filesystem, and symlinks are not resolved.

"Suspicous characters" in non-strict context are considered to be:
- Null character, newline and carriage return
- Backslash used as an escape character
- Control characters (`\x01`..=`\x1F` and `\x7F`)

... and in strict context:
- Wildcards: `*` and `?`
- Quote characters: `"` and `'`
- Command output redirection: `<` and `>`
- Command piping: `|`
- Command separator in some shells: `;`
- Background job operator in some shells: `&`
- History expansion in some shells: `!`
- Environment variable expansion: `$`
- Command substitution in some shells: `` ` ``
- Special characters in some shells: `(`, `)`, `[`, `]`, `{`, `}`
*/
pub fn normalize_path(path: &str, strict: bool) -> (out: String)
    ensures
        out@ == normalize_spec(path@, strict),
{
    let chars: Vec<char> = to_chars(path);

    // Sanitize the string by removing certain suspicious characters,
    // which for sure don't belong in a filesystem path.
    let sanitized: Vec<char> = sanitize_chars(chars.as_slice(), strict);
    let is_absolute: bool = sanitized.len() > 0 && sanitized[0] == '/';
    let pieces: Vec<Vec<char>> = split_chars(sanitized.as_slice());
    let kept: Vec<Vec<char>> = resolve_pieces(pieces);
    let joined: Vec<char> = join_chars(is_absolute, &kept);
    from_chars(joined.as_slice())
}

} // verus!
