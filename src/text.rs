//! The lexical rules of edge-list lines.

use vstd::prelude::*;
use vstd::std_specs::iter::IteratorSpec;

verus! {

/// Characters that separate the tokens of a line.
pub open spec fn is_separator(c: char) -> bool {
    c == ',' || c == ' '
}

/// Characters that trimming removes: those with the Unicode `White_Space`
/// property.
pub open spec fn is_blank(c: char) -> bool {
    let u = c as u32;
    (0x09 <= u <= 0x0D) || u == 0x20 || u == 0x85 || u == 0xA0 || u == 0x1680 || (0x2000 <= u
        <= 0x200A) || u == 0x2028 || u == 0x2029 || u == 0x202F || u == 0x205F || u == 0x3000
}

/// Whether trimming removes `c`.
pub fn blank(c: char) -> (r: bool)
    ensures
        r == is_blank(c),
{
    let u = c as u32;
    (0x09 <= u && u <= 0x0D) || u == 0x20 || u == 0x85 || u == 0xA0 || u == 0x1680 || (0x2000 <= u
        && u <= 0x200A) || u == 0x2028 || u == 0x2029 || u == 0x202F || u == 0x205F || u == 0x3000
}

/// A line that carries no edge: blank after trimming, or a comment starting
/// with `#` or `%`.
pub open spec fn is_skipped(line: Seq<char>) -> bool {
    (forall|i: int| 0 <= i < line.len() ==> is_blank(line[i])) || line[0] == '#' || line[0] == '%'
}

/// `cur`, if a token is in progress, as a sequence of at most one token.
pub open spec fn pending(cur: Seq<char>) -> Seq<Seq<char>> {
    if cur.len() > 0 {
        seq![cur]
    } else {
        Seq::empty()
    }
}

/// The tokens of `s`, when the characters `cur` of a token were read just
/// before it.
pub open spec fn tokens_after(s: Seq<char>, cur: Seq<char>) -> Seq<Seq<char>>
    decreases s.len(),
{
    if s.len() == 0 {
        pending(cur)
    } else if is_separator(s[0]) {
        pending(cur) + tokens_after(s.drop_first(), Seq::empty())
    } else {
        tokens_after(s.drop_first(), cur.push(s[0]))
    }
}

/// The non-empty runs of non-separator characters of `line`, in order.
pub open spec fn tokens(line: Seq<char>) -> Seq<Seq<char>> {
    tokens_after(line, Seq::empty())
}

/// The characters of `s`.
pub fn chars_of(s: &str) -> (r: Vec<char>)
    ensures
        r@ == s@,
{
    broadcast use vstd::string::next_postcondition;

    let mut it = s.chars();
    let mut r: Vec<char> = Vec::new();
    loop
        invariant
            r@ + it.remaining() == s@,
            it.decrease() is Some,
        decreases it.decrease()->0,
    {
        let ghost before = it.remaining();
        match it.next() {
            Some(c) => {
                r.push(c);
                assert(r@ + it.remaining() =~= s@) by {
                    assert(before =~= seq![c] + it.remaining());
                    assert(s@ =~= r@.drop_last() + before);
                }
            },
            None => {
                assert(r@ =~= s@);
                return r;
            },
        }
    }
}

/// Whether `line` carries no edge.
pub fn skipped(line: &Vec<char>) -> (r: bool)
    ensures
        r == is_skipped(line@),
{
    if line.len() > 0 && (line[0] == '#' || line[0] == '%') {
        return true;
    }
    let mut i: usize = 0;
    while i < line.len()
        invariant
            0 <= i <= line@.len(),
            forall|j: int| 0 <= j < i ==> is_blank(line@[j]),
            line@.len() > 0 ==> line@[0] != '#' && line@[0] != '%',
        decreases line@.len() - i,
    {
        let c = line[i];
        if !blank(c) {
            return false;
        }
        i = i + 1;
    }
    true
}

/// The first two tokens of `line`, if it has two.
pub fn first_two_tokens(line: &str) -> (r: Option<(String, String)>)
    ensures
        r is Some <==> tokens(line@).len() >= 2,
        r matches Some((a, b)) ==> a@ == tokens(line@)[0] && b@ == tokens(line@)[1],
{
    let chars = chars_of(line);
    let n = chars.len();
    let mut spans: Vec<(usize, usize)> = Vec::new();
    let ghost mut found: Seq<Seq<char>> = Seq::empty();
    let mut start: usize = 0;
    let mut p: usize = 0;
    assert(tokens(chars@) == found + tokens_after(chars@.skip(0), chars@.subrange(0, 0))) by {
        assert(chars@.skip(0) =~= chars@);
        assert(chars@.subrange(0, 0) =~= Seq::<char>::empty());
        assert(found + tokens(chars@) =~= tokens(chars@));
    }
    while p < n
        invariant
            n == chars@.len(),
            chars@ == line@,
            0 <= start <= p <= n,
            spans@.len() == found.len(),
            forall|j: int|
                #![trigger spans@[j]]
                0 <= j < spans@.len() ==> spans@[j].0 <= spans@[j].1 <= n && found[j]
                    == chars@.subrange(spans@[j].0 as int, spans@[j].1 as int),
            tokens(chars@) == found + tokens_after(
                chars@.skip(p as int),
                chars@.subrange(start as int, p as int),
            ),
        decreases n - p,
    {
        let c = chars[p];
        let ghost cur = chars@.subrange(start as int, p as int);
        proof {
            assert(chars@.skip(p as int).drop_first() =~= chars@.skip(p + 1));
            assert(chars@.skip(p as int)[0] == c);
        }
        if c == ',' || c == ' ' {
            proof {
                assert(found + (pending(cur) + tokens_after(chars@.skip(p + 1), Seq::empty()))
                    =~= (found + pending(cur)) + tokens_after(chars@.skip(p + 1), Seq::empty()));
                assert(chars@.subrange(p + 1, p + 1) =~= Seq::<char>::empty());
            }
            if start < p {
                let ghost sp0 = spans@;
                let ghost f0 = found;
                spans.push((start, p));
                proof {
                    assert(found + pending(cur) =~= found.push(cur));
                    found = found.push(cur);
                    assert forall|j: int| 0 <= j < spans@.len() implies spans@[j].0 <= spans@[j].1 <= n
                        && found[j] == chars@.subrange(spans@[j].0 as int, spans@[j].1 as int) by {
                        if j < sp0.len() {
                            assert(spans@[j] == sp0[j] && found[j] == f0[j]);
                        }
                    }
                }
            } else {
                assert(found + pending(cur) =~= found);
            }
            start = p + 1;
        } else {
            assert(cur.push(c) =~= chars@.subrange(start as int, p + 1));
        }
        p = p + 1;
    }
    let ghost cur = chars@.subrange(start as int, p as int);
    assert(tokens(chars@) == found + pending(cur)) by {
        assert(chars@.skip(p as int) =~= Seq::<char>::empty());
    }
    if start < p {
        let ghost sp0 = spans@;
        let ghost f0 = found;
        spans.push((start, p));
        proof {
            assert(found + pending(cur) =~= found.push(cur));
            found = found.push(cur);
            assert forall|j: int| 0 <= j < spans@.len() implies spans@[j].0 <= spans@[j].1 <= n
                && found[j] == chars@.subrange(spans@[j].0 as int, spans@[j].1 as int) by {
                if j < sp0.len() {
                    assert(spans@[j] == sp0[j] && found[j] == f0[j]);
                }
            }
        }
    } else {
        assert(found + pending(cur) =~= found);
    }
    assert(tokens(chars@) =~= found);
    if spans.len() >= 2 {
        let (s0, e0) = spans[0];
        let (s1, e1) = spans[1];
        let a = line.substring_char(s0, e0).to_owned();
        let b = line.substring_char(s1, e1).to_owned();
        Some((a, b))
    } else {
        None
    }
}

} // verus!
