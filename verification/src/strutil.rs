//! Verified string helpers: joining description statements with newlines,
//! splitting a description back into statements, and a lexicographic order
//! on character sequences used to sort container names.

use vstd::prelude::*;
use vstd::string::StringExecFns;
use vstd::string::StrSliceExecFns;

verus! {

// ---------------------------------------------------------------------------
// Joining statements with '\n'
// ---------------------------------------------------------------------------

/// The characters of `parts` joined with a single `'\n'` between parts.
pub open spec fn spec_join_nl(parts: Seq<Seq<char>>) -> Seq<char>
    decreases parts.len(),
{
    if parts.len() == 0 {
        seq![]
    } else if parts.len() == 1 {
        parts[0]
    } else {
        spec_join_nl(parts.drop_last()) + seq!['\n'] + parts.last()
    }
}

/// Joins the given statements with `'\n'`, as they are stored in an item's
/// description field.
pub fn join_nl(parts: &Vec<String>) -> (r: String)
    ensures
        r@ == spec_join_nl(parts.deep_view()),
{
    let ghost all = parts.deep_view();
    let mut r = String::new();
    let mut i: usize = 0;
    while i < parts.len()
        invariant
            0 <= i <= parts.len(),
            all == parts.deep_view(),
            all.len() == parts.len(),
            forall|j: int| 0 <= j < all.len() ==> all[j] == parts@[j]@,
            r@ == spec_join_nl(all.take(i as int)),
        decreases parts.len() - i,
    {
        if i > 0 {
            r.append("\n");
        }
        r.append(parts[i].as_str());
        proof {
            let pre = all.take(i as int);
            let post = all.take(i as int + 1);
            assert(post.drop_last() =~= pre);
            assert(post.last() == all[i as int]);
            if i > 0 {
                reveal_strlit("\n");
                assert(("\n")@ =~= seq!['\n']);
                assert(r@ == spec_join_nl(pre) + seq!['\n'] + all[i as int]);
            } else {
                assert(pre.len() == 0);
                assert(r@ =~= all[0]);
            }
        }
        i = i + 1;
    }
    proof {
        assert(all.take(parts.len() as int) =~= all);
    }
    r
}

// ---------------------------------------------------------------------------
// Splitting a description on '\n'
// ---------------------------------------------------------------------------

/// `s` split on `'\n'`, with the convention of `str::split`: the empty
/// sequence splits into one empty part, and a trailing `'\n'` yields a final
/// empty part.
pub open spec fn spec_split_nl(s: Seq<char>) -> Seq<Seq<char>>
    decreases s.len(),
{
    if s.len() == 0 {
        seq![Seq::<char>::empty()]
    } else if s.last() == '\n' {
        spec_split_nl(s.drop_last()).push(Seq::<char>::empty())
    } else {
        let p = spec_split_nl(s.drop_last());
        p.update(p.len() - 1, p.last().push(s.last()))
    }
}

/// Splits a description string into its statements, one per `'\n'`-separated
/// part, exactly as `spec_split_nl` describes.
pub fn split_nl(s: &str) -> (r: Vec<String>)
    ensures
        r.deep_view() == spec_split_nl(s@),
{
    let n = s.unicode_len();
    let mut out: Vec<String> = Vec::new();
    let mut start: usize = 0;
    let mut i: usize = 0;
    proof {
        assert(out.deep_view() =~= Seq::<Seq<char>>::empty());
        assert(s@.take(0) =~= Seq::<char>::empty());
        assert(s@.subrange(0, 0) =~= Seq::<char>::empty());
        assert(spec_split_nl(s@.take(0)) =~= out.deep_view().push(s@.subrange(0, 0)));
    }
    while i < n
        invariant
            0 <= start <= i <= n,
            n == s@.len(),
            spec_split_nl(s@.take(i as int)) == out.deep_view().push(
                s@.subrange(start as int, i as int),
            ),
        decreases n - i,
    {
        let c = s.get_char(i);
        proof {
            assert(s@.take(i as int + 1).drop_last() =~= s@.take(i as int));
            assert(s@.take(i as int + 1).last() == s@[i as int]);
        }
        if c == '\n' {
            let ghost old_deep = out.deep_view();
            let part = String::from_str(s.substring_char(start, i));
            out.push(part);
            proof {
                assert(out.deep_view() =~= old_deep.push(s@.subrange(start as int, i as int)));
                assert(s@.subrange(i as int + 1, i as int + 1) =~= Seq::<char>::empty());
                assert(spec_split_nl(s@.take(i as int + 1)) =~= out.deep_view().push(
                    s@.subrange(i as int + 1, i as int + 1),
                ));
            }
            start = i + 1;
        } else {
            proof {
                let p = out.deep_view().push(s@.subrange(start as int, i as int));
                assert(p.last() == s@.subrange(start as int, i as int));
                assert(s@.subrange(start as int, i as int).push(s@[i as int]) =~= s@.subrange(
                    start as int,
                    i as int + 1,
                ));
                assert(p.update(p.len() - 1, p.last().push(s@[i as int])) =~= out.deep_view().push(
                    s@.subrange(start as int, i as int + 1),
                ));
            }
        }
        i = i + 1;
    }
    let ghost old_deep = out.deep_view();
    let last_part = String::from_str(s.substring_char(start, n));
    out.push(last_part);
    proof {
        assert(s@.take(n as int) =~= s@);
        assert(out.deep_view() =~= old_deep.push(s@.subrange(start as int, n as int)));
    }
    out
}

// ---------------------------------------------------------------------------
// Lexicographic order on character sequences
// ---------------------------------------------------------------------------

/// Lexicographic order by unicode scalar value; a prefix sorts before any
/// of its extensions.
pub open spec fn lex_le(a: Seq<char>, b: Seq<char>) -> bool
    decreases a.len(),
{
    if a.len() == 0 {
        true
    } else if b.len() == 0 {
        false
    } else if (a[0] as u32) == (b[0] as u32) {
        lex_le(a.skip(1), b.skip(1))
    } else {
        (a[0] as u32) < (b[0] as u32)
    }
}

/// `lex_le` is total: two sequences always compare one way or the other.
pub proof fn lemma_lex_le_total(a: Seq<char>, b: Seq<char>)
    ensures
        lex_le(a, b) || lex_le(b, a),
    decreases a.len(),
{
    if a.len() != 0 && b.len() != 0 && (a[0] as u32) == (b[0] as u32) {
        lemma_lex_le_total(a.skip(1), b.skip(1));
    }
}

/// `lex_le` is transitive.
pub proof fn lemma_lex_le_trans(a: Seq<char>, b: Seq<char>, c: Seq<char>)
    requires
        lex_le(a, b),
        lex_le(b, c),
    ensures
        lex_le(a, c),
    decreases a.len(),
{
    if a.len() != 0 && b.len() != 0 && c.len() != 0 && (a[0] as u32) == (b[0] as u32) && (b[0]
        as u32) == (c[0] as u32) {
        lemma_lex_le_trans(a.skip(1), b.skip(1), c.skip(1));
    }
}

/// Compares two strings in the `lex_le` order.
pub fn str_lex_le(a: &str, b: &str) -> (r: bool)
    ensures
        r == lex_le(a@, b@),
{
    let la = a.unicode_len();
    let lb = b.unicode_len();
    let mut i: usize = 0;
    proof {
        assert(a@.skip(0) =~= a@);
        assert(b@.skip(0) =~= b@);
    }
    loop
        invariant
            0 <= i <= la,
            i <= lb,
            la == a@.len(),
            lb == b@.len(),
            lex_le(a@, b@) == lex_le(a@.skip(i as int), b@.skip(i as int)),
            lex_le(b@, a@) == lex_le(b@.skip(i as int), a@.skip(i as int)),
        decreases la - i,
    {
        if i >= la {
            proof {
                assert(a@.skip(i as int).len() == 0);
            }
            return true;
        }
        if i >= lb {
            proof {
                assert(b@.skip(i as int).len() == 0);
                assert(a@.skip(i as int).len() != 0);
            }
            return false;
        }
        let ca = a.get_char(i);
        let cb = b.get_char(i);
        proof {
            assert(a@.skip(i as int)[0] == a@[i as int]);
            assert(b@.skip(i as int)[0] == b@[i as int]);
            assert(a@.skip(i as int).skip(1) =~= a@.skip(i as int + 1));
            assert(b@.skip(i as int).skip(1) =~= b@.skip(i as int + 1));
        }
        if (ca as u32) != (cb as u32) {
            return (ca as u32) < (cb as u32);
        }
        i = i + 1;
    }
}

} // verus!
