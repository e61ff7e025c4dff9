//! Byte-level line structure: splitting content into lines, taking a
//! prefix of whole lines, and copying byte ranges.
//!
//! A line is a maximal run of bytes between newline separators. Content
//! that ends without a newline still ends in a (final, unterminated)
//! line; empty content has no lines.

use vstd::prelude::*;

verus! {

/// The newline byte.
pub const NL: u8 = 10;

/// The views of a sequence of byte vectors.
pub open spec fn byte_views(v: Seq<Vec<u8>>) -> Seq<Seq<u8>> {
    v.map_values(|x: Vec<u8>| x@)
}

/// Index of the first newline byte of `s`, or `s.len()` when none occurs.
pub open spec fn first_nl(s: Seq<u8>) -> nat
    decreases s.len(),
{
    if s.len() == 0 {
        0
    } else if s[0] == NL {
        0
    } else {
        1 + first_nl(s.drop_first())
    }
}

pub proof fn lemma_first_nl(s: Seq<u8>)
    ensures
        first_nl(s) <= s.len(),
        forall|i: int| 0 <= i < first_nl(s) ==> s[i] != NL,
        first_nl(s) < s.len() ==> s[first_nl(s) as int] == NL,
    decreases s.len(),
{
    if s.len() > 0 && s[0] != NL {
        lemma_first_nl(s.drop_first());
        assert(forall|i: int| 1 <= i < first_nl(s) ==> s[i] == s.drop_first()[i - 1]);
    }
}

pub proof fn lemma_first_nl_at(s: Seq<u8>, k: int)
    requires
        0 <= k <= s.len(),
        forall|i: int| 0 <= i < k ==> s[i] != NL,
        k < s.len() ==> s[k] == NL,
    ensures
        first_nl(s) == k,
    decreases k,
{
    if k > 0 {
        assert(s[0] != NL);
        assert(forall|i: int| 0 <= i < k - 1 ==> s.drop_first()[i] == s[i + 1]);
        lemma_first_nl_at(s.drop_first(), k - 1);
    }
}

/// The lines of `s`, newline separators stripped.
pub open spec fn spec_split_lines(s: Seq<u8>) -> Seq<Seq<u8>>
    decreases s.len(),
{
    if s.len() == 0 {
        seq![]
    } else if first_nl(s) < s.len() {
        seq![s.take(first_nl(s) as int)] + spec_split_lines(s.skip(first_nl(s) as int + 1))
    } else {
        seq![s]
    }
}

/// The shortest prefix of `s` that contains `n` whole lines, or all of
/// `s` when it holds fewer.
pub open spec fn spec_take_lines(s: Seq<u8>, n: nat) -> Seq<u8>
    decreases s.len(),
{
    if n == 0 || s.len() == 0 {
        seq![]
    } else if first_nl(s) < s.len() {
        s.take(first_nl(s) as int + 1) + spec_take_lines(
            s.skip(first_nl(s) as int + 1),
            (n - 1) as nat,
        )
    } else {
        s
    }
}

/// Splitting content that starts with one newline-terminated line yields
/// that line followed by the lines of the rest.
pub proof fn lemma_split_head(s: Seq<u8>, r: Seq<u8>)
    requires
        first_nl(s) < s.len(),
    ensures
        spec_split_lines(s.take(first_nl(s) as int + 1) + r) == seq![s.take(first_nl(s) as int)]
            + spec_split_lines(r),
{
    let k = first_nl(s) as int;
    let u = s.take(k + 1) + r;
    lemma_first_nl(s);
    assert(forall|i: int| 0 <= i < k ==> u[i] == s[i]);
    assert(u[k] == s[k]);
    lemma_first_nl_at(u, k);
    assert(u.take(k) =~= s.take(k));
    assert(u.skip(k + 1) =~= r);
    assert(spec_split_lines(u) == seq![s.take(k)] + spec_split_lines(r));
}

/// First index at or after `from` holding a newline byte, or the length.
pub fn find_nl(s: &Vec<u8>, from: usize) -> (k: usize)
    requires
        from <= s@.len(),
    ensures
        from <= k <= s@.len(),
        forall|i: int| from <= i < k ==> s@[i] != NL,
        k < s@.len() ==> s@[k as int] == NL,
{
    let mut k = from;
    while k < s.len()
        invariant
            from <= k <= s@.len(),
            forall|i: int| from <= i < k ==> s@[i] != NL,
        decreases s@.len() - k,
    {
        if s[k] == NL {
            return k;
        }
        k = k + 1;
    }
    k
}

/// Copies the bytes of `s` from `a` (inclusive) to `b` (exclusive).
pub fn subrange_copy(s: &Vec<u8>, a: usize, b: usize) -> (r: Vec<u8>)
    requires
        a <= b <= s@.len(),
    ensures
        r@ == s@.subrange(a as int, b as int),
{
    let mut r: Vec<u8> = Vec::new();
    let mut i = a;
    while i < b
        invariant
            a <= i <= b <= s@.len(),
            r@ == s@.subrange(a as int, i as int),
        decreases b - i,
    {
        r.push(s[i]);
        proof {
            assert(s@.subrange(a as int, i as int).push(s@[i as int]) =~= s@.subrange(
                a as int,
                i as int + 1,
            ));
        }
        i = i + 1;
    }
    r
}

/// Appends all of `src` to `dst`.
pub fn append_bytes(dst: &mut Vec<u8>, src: &Vec<u8>)
    ensures
        final(dst)@ == old(dst)@ + src@,
{
    let mut i: usize = 0;
    while i < src.len()
        invariant
            i <= src@.len(),
            dst@ == old(dst)@ + src@.take(i as int),
        decreases src@.len() - i,
    {
        dst.push(src[i]);
        proof {
            assert((old(dst)@ + src@.take(i as int)).push(src@[i as int]) =~= old(dst)@
                + src@.take(i as int + 1));
        }
        i = i + 1;
    }
    proof {
        assert(old(dst)@ + src@.take(src@.len() as int) =~= old(dst)@ + src@);
    }
}

/// Splits `content` into its lines, newline separators stripped.
pub fn split_lines(content: &Vec<u8>) -> (r: Vec<Vec<u8>>)
    ensures
        byte_views(r@) == spec_split_lines(content@),
{
    let mut r: Vec<Vec<u8>> = Vec::new();
    let mut pos: usize = 0;
    proof {
        assert(content@.skip(0) =~= content@);
        assert(byte_views(r@) + spec_split_lines(content@) =~= spec_split_lines(content@));
    }
    while pos < content.len()
        invariant
            pos <= content@.len(),
            spec_split_lines(content@) == byte_views(r@) + spec_split_lines(
                content@.skip(pos as int),
            ),
        decreases content@.len() - pos,
    {
        let ghost prev = r@;
        let k = find_nl(content, pos);
        let ghost t = content@.skip(pos as int);
        proof {
            lemma_first_nl_at(t, k - pos);
        }
        if k < content.len() {
            let line = subrange_copy(content, pos, k);
            r.push(line);
            proof {
                assert(t.take(k - pos) =~= content@.subrange(pos as int, k as int));
                assert(t.skip(k - pos + 1) =~= content@.skip(k as int + 1));
                assert(spec_split_lines(t) == seq![line@] + spec_split_lines(
                    content@.skip(k as int + 1),
                ));
                assert(byte_views(r@) =~= byte_views(prev) + seq![line@]);
            }
            pos = k + 1;
        } else {
            let line = subrange_copy(content, pos, content.len());
            r.push(line);
            proof {
                assert(t.len() > 0);
                assert(t =~= content@.subrange(pos as int, content@.len() as int));
                assert(spec_split_lines(t) == seq![line@]);
                assert(byte_views(r@) =~= byte_views(prev) + seq![line@]);
                assert(content@.skip(content@.len() as int) =~= Seq::<u8>::empty());
            }
            pos = content.len();
        }
    }
    proof {
        assert(content@.skip(content@.len() as int) =~= Seq::<u8>::empty());
        assert(byte_views(r@) + spec_split_lines(Seq::<u8>::empty()) =~= byte_views(r@));
    }
    r
}

/// Length of the shortest prefix of `content` holding `n` whole lines
/// (all of it when there are fewer).
pub fn line_cut(content: &Vec<u8>, n: usize) -> (c: usize)
    ensures
        c <= content@.len(),
        content@.take(c as int) == spec_take_lines(content@, n as nat),
{
    let mut pos: usize = 0;
    let mut taken: usize = 0;
    proof {
        assert(content@.skip(0) =~= content@);
        assert(content@.take(0) + spec_take_lines(content@, n as nat) =~= spec_take_lines(
            content@,
            n as nat,
        ));
    }
    while taken < n && pos < content.len()
        invariant
            pos <= content@.len(),
            taken <= n,
            spec_take_lines(content@, n as nat) == content@.take(pos as int) + spec_take_lines(
                content@.skip(pos as int),
                (n - taken) as nat,
            ),
        decreases content@.len() - pos,
    {
        let k = find_nl(content, pos);
        let ghost t = content@.skip(pos as int);
        proof {
            lemma_first_nl_at(t, k - pos);
        }
        if k < content.len() {
            proof {
                assert(t.take(k - pos + 1) =~= content@.subrange(pos as int, k as int + 1));
                assert(t.skip(k - pos + 1) =~= content@.skip(k as int + 1));
                assert(content@.take(pos as int) + t.take(k - pos + 1) =~= content@.take(
                    k as int + 1,
                ));
            }
            pos = k + 1;
            taken = taken + 1;
        } else {
            proof {
                assert(spec_take_lines(t, (n - taken) as nat) == t);
                assert(content@.take(pos as int) + t =~= content@.take(content@.len() as int));
            }
            pos = content.len();
        }
    }
    proof {
        if taken == n {
            assert(content@.take(pos as int) + spec_take_lines(content@.skip(pos as int), 0)
                =~= content@.take(pos as int));
        } else {
            assert(content@.skip(content@.len() as int) =~= Seq::<u8>::empty());
            assert(content@.take(pos as int) + spec_take_lines(
                Seq::<u8>::empty(),
                (n - taken) as nat,
            ) =~= content@.take(pos as int));
        }
    }
    pos
}

/// The first-N-lines law: the `n`-line prefix really is a prefix of the
/// content, and its lines are exactly the first `min(n, #lines)` lines
/// of the content, unchanged.
pub proof fn lemma_take_lines(s: Seq<u8>, n: nat)
    ensures
        spec_take_lines(s, n).len() <= s.len(),
        spec_take_lines(s, n) == s.take(spec_take_lines(s, n).len() as int),
        spec_split_lines(spec_take_lines(s, n)) == spec_split_lines(s).take(
            if n <= spec_split_lines(s).len() {
                n as int
            } else {
                spec_split_lines(s).len() as int
            },
        ),
    decreases s.len(),
{
    lemma_first_nl(s);
    if n == 0 || s.len() == 0 {
        assert(spec_take_lines(s, n) =~= s.take(0));
        assert(spec_split_lines(spec_take_lines(s, n)) =~= spec_split_lines(s).take(0));
    } else {
        let k = first_nl(s) as int;
        if k < s.len() {
            let tail = s.skip(k + 1);
            let rest = spec_take_lines(tail, (n - 1) as nat);
            lemma_take_lines(tail, (n - 1) as nat);
            lemma_split_head(s, rest);
            assert(spec_take_lines(s, n) == s.take(k + 1) + rest);
            assert(s.take(k + 1) + tail.take(rest.len() as int) =~= s.take(k + 1 + rest.len()));
            let cnt_tail = spec_split_lines(tail).len() as int;
            let m = if n - 1 <= cnt_tail { n - 1 } else { cnt_tail };
            assert(spec_split_lines(spec_take_lines(s, n)) == seq![s.take(k)]
                + spec_split_lines(tail).take(m));
            assert(spec_split_lines(s) == seq![s.take(k)] + spec_split_lines(tail));
            assert(seq![s.take(k)] + spec_split_lines(tail).take(m) =~= (seq![s.take(k)]
                + spec_split_lines(tail)).take(m + 1));
        } else {
            assert(spec_take_lines(s, n) == s);
            assert(s.take(s.len() as int) =~= s);
            assert(spec_split_lines(s) == seq![s]);
            assert(spec_split_lines(s).take(1) =~= seq![s]);
        }
    }
}

} // verus!
