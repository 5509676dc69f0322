//! Recovery of the literal text of a quoted scalar: each
//! backslash-escape sequence becomes the character it stands for.

use vstd::prelude::*;

verus! {

/// The character that a backslash escape stands for.
pub open spec fn escape_meaning(c: char) -> char {
    if c == 'n' {
        '\n'
    } else if c == 't' {
        '\t'
    } else if c == 'r' {
        '\r'
    } else {
        c
    }
}

/// The literal text of a raw scalar: a backslash and its follower
/// become one character; a lone trailing backslash is kept as itself.
pub open spec fn unescaped(raw: Seq<char>) -> Seq<char>
    decreases raw.len(),
{
    if raw.len() == 0 {
        Seq::empty()
    } else if raw[0] == '\\' && raw.len() >= 2 {
        seq![escape_meaning(raw[1])] + unescaped(raw.skip(2))
    } else if raw[0] == '\\' {
        seq!['\\']
    } else {
        seq![raw[0]] + unescaped(raw.skip(1))
    }
}

/// Turns a raw quoted scalar into the literal text it denotes.
pub fn unescape(raw: &Vec<char>) -> (r: Vec<char>)
    ensures
        r@ == unescaped(raw@),
{
    let mut out: Vec<char> = Vec::new();
    let mut i: usize = 0;
    proof {
        assert(raw@.skip(0) =~= raw@);
        assert(out@ + unescaped(raw@) =~= unescaped(raw@));
    }
    while i < raw.len()
        invariant
            i <= raw.len(),
            unescaped(raw@) == out@ + unescaped(raw@.skip(i as int)),
        decreases raw.len() - i,
    {
        let c = raw[i];
        let ghost out0 = out@;
        if c == '\\' && i + 1 < raw.len() {
            let d = raw[i + 1];
            let u = if d == 'n' {
                '\n'
            } else if d == 't' {
                '\t'
            } else if d == 'r' {
                '\r'
            } else {
                d
            };
            out.push(u);
            proof {
                assert(raw@.skip(i as int).skip(2) =~= raw@.skip(i as int + 2));
                assert(out0 + (seq![u] + unescaped(raw@.skip(i as int + 2))) =~= out@ + unescaped(
                    raw@.skip(i as int + 2),
                ));
            }
            i += 2;
        } else if c == '\\' {
            out.push('\\');
            proof {
                assert(raw@.skip(i as int) =~= seq!['\\']);
                assert(raw@.skip(i as int + 1) =~= Seq::<char>::empty());
                assert(out0 + seq!['\\'] =~= out@ + unescaped(raw@.skip(i as int + 1)));
            }
            i += 1;
        } else {
            out.push(c);
            proof {
                assert(raw@.skip(i as int).skip(1) =~= raw@.skip(i as int + 1));
                assert(out0 + (seq![c] + unescaped(raw@.skip(i as int + 1))) =~= out@ + unescaped(
                    raw@.skip(i as int + 1),
                ));
            }
            i += 1;
        }
    }
    proof {
        assert(raw@.skip(raw.len() as int) =~= Seq::<char>::empty());
        assert(out@ + Seq::<char>::empty() =~= out@);
    }
    out
}

} // verus!
