//! The transformation modes and the rendering of one source's content.

use vstd::prelude::*;
use crate::digits::{dec_rep, decimal_digits};
use crate::lines::{
    NL, append_bytes, byte_views, line_cut, spec_split_lines, spec_take_lines, split_lines,
    subrange_copy,
};

verus! {

/// The tab byte that separates a numeric prefix from its line.
pub const TAB: u8 = 9;

/// The transformation applied to each resolved source.
#[derive(Clone, Copy, Debug)]
pub enum Mode {
    /// Copy the source's bytes unchanged.
    Plain,
    /// Prefix every line with its 1-based index within its source.
    NumberAll,
    /// Prefix only non-blank lines, counting just those; blank lines
    /// pass through bare.
    NumberNonblank,
    /// Emit at most the first N lines of the source.
    FirstLines(usize),
    /// Emit at most the first N bytes of the source, decoded permissively.
    FirstBytes(usize),
}

impl Mode {
    /// A numeric budget, where the mode carries one, must be positive.
    pub open spec fn wf(self) -> bool {
        match self {
            Mode::FirstLines(n) => n >= 1,
            Mode::FirstBytes(n) => n >= 1,
            _ => true,
        }
    }
}

/// One numbered record: the decimal index, a tab, the line, a newline.
pub open spec fn spec_numbered(k: nat, line: Seq<u8>) -> Seq<u8> {
    dec_rep(k) + seq![TAB] + line + seq![NL]
}

/// number-all-lines rendering of the lines `ls`, the first numbered `k`.
pub open spec fn spec_number_all(ls: Seq<Seq<u8>>, k: nat) -> Seq<u8>
    decreases ls.len(),
{
    if ls.len() == 0 {
        seq![]
    } else {
        spec_numbered(k, ls.first()) + spec_number_all(ls.drop_first(), k + 1)
    }
}

/// How many of the lines `ls` are non-blank.
pub open spec fn nonblank_count(ls: Seq<Seq<u8>>) -> nat
    decreases ls.len(),
{
    if ls.len() == 0 {
        0
    } else {
        (if ls.first().len() > 0 {
            1 as nat
        } else {
            0 as nat
        }) + nonblank_count(ls.drop_first())
    }
}

/// number-nonblank-lines rendering of `ls`, the next number being `k`.
pub open spec fn spec_number_nonblank(ls: Seq<Seq<u8>>, k: nat) -> Seq<u8>
    decreases ls.len(),
{
    if ls.len() == 0 {
        seq![]
    } else if ls.first().len() == 0 {
        seq![NL] + spec_number_nonblank(ls.drop_first(), k)
    } else {
        spec_numbered(k, ls.first()) + spec_number_nonblank(ls.drop_first(), k + 1)
    }
}

/// What a permissive UTF-8 decode returns for the bytes `b`, re-encoded
/// as bytes; a function of `b` alone.
pub uninterp spec fn lossy_of(b: Seq<u8>) -> Seq<u8>;

/// Relies on String::from_utf8_lossy: the result depends on the input
/// bytes alone, replaces invalid UTF-8 sequences and leaves valid
/// UTF-8 (so in particular pure ASCII) unchanged, and is empty exactly
/// for empty input.
#[verifier::external_body]
fn decode_lossy(b: &Vec<u8>) -> (r: Vec<u8>)
    ensures
        r@ == lossy_of(b@),
        b@.len() == 0 ==> r@.len() == 0,
        (forall|i: int| 0 <= i < b@.len() ==> b@[i] < 128) ==> r@ == b@,
{
    String::from_utf8_lossy(b).into_owned().into_bytes()
}

/// The rendering of one source's `content` under `mode`.
pub open spec fn spec_render(mode: Mode, content: Seq<u8>) -> Seq<u8> {
    match mode {
        Mode::Plain => content,
        Mode::NumberAll => spec_number_all(spec_split_lines(content), 1),
        Mode::NumberNonblank => spec_number_nonblank(spec_split_lines(content), 1),
        Mode::FirstLines(n) => spec_take_lines(content, n as nat),
        Mode::FirstBytes(n) => lossy_of(
            content.take(
                if n <= content.len() {
                    n as int
                } else {
                    content.len() as int
                },
            ),
        ),
    }
}

fn number_all_lines(ls: &Vec<Vec<u8>>) -> (out: Vec<u8>)
    ensures
        out@ == spec_number_all(byte_views(ls@), 1),
{
    let ghost views = byte_views(ls@);
    let mut out: Vec<u8> = Vec::new();
    let mut i: usize = 0;
    proof {
        assert(views.skip(0) =~= views);
        assert(out@ + spec_number_all(views, 1) =~= spec_number_all(views, 1));
    }
    while i < ls.len()
        invariant
            i <= ls@.len(),
            views == byte_views(ls@),
            spec_number_all(views, 1) == out@ + spec_number_all(views.skip(i as int), i as nat + 1),
        decreases ls@.len() - i,
    {
        let ghost before = out@;
        let digits = decimal_digits(i + 1);
        append_bytes(&mut out, &digits);
        out.push(TAB);
        append_bytes(&mut out, &ls[i]);
        out.push(NL);
        proof {
            assert(views.skip(i as int).first() == views[i as int]);
            assert(views.skip(i as int).drop_first() =~= views.skip(i as int + 1));
            assert(out@ =~= before + spec_numbered(i as nat + 1, views[i as int]));
        }
        i = i + 1;
    }
    proof {
        assert(views.skip(views.len() as int) =~= Seq::<Seq<u8>>::empty());
        assert(out@ + spec_number_all(Seq::<Seq<u8>>::empty(), i as nat + 1) =~= out@);
    }
    out
}

fn number_nonblank_lines(ls: &Vec<Vec<u8>>) -> (out: Vec<u8>)
    ensures
        out@ == spec_number_nonblank(byte_views(ls@), 1),
{
    let ghost views = byte_views(ls@);
    let mut out: Vec<u8> = Vec::new();
    let mut i: usize = 0;
    let mut c: usize = 0;
    proof {
        assert(views.skip(0) =~= views);
        assert(out@ + spec_number_nonblank(views, 1) =~= spec_number_nonblank(views, 1));
    }
    while i < ls.len()
        invariant
            i <= ls@.len(),
            c <= i,
            views == byte_views(ls@),
            spec_number_nonblank(views, 1) == out@ + spec_number_nonblank(
                views.skip(i as int),
                c as nat + 1,
            ),
        decreases ls@.len() - i,
    {
        let ghost before = out@;
        proof {
            assert(views.skip(i as int).first() == views[i as int]);
            assert(views.skip(i as int).drop_first() =~= views.skip(i as int + 1));
        }
        if ls[i].len() == 0 {
            out.push(NL);
            proof {
                assert(out@ =~= before + seq![NL]);
            }
        } else {
            let digits = decimal_digits(c + 1);
            append_bytes(&mut out, &digits);
            out.push(TAB);
            append_bytes(&mut out, &ls[i]);
            out.push(NL);
            proof {
                assert(out@ =~= before + spec_numbered(c as nat + 1, views[i as int]));
            }
            c = c + 1;
        }
        i = i + 1;
    }
    proof {
        assert(views.skip(views.len() as int) =~= Seq::<Seq<u8>>::empty());
        assert(out@ + spec_number_nonblank(Seq::<Seq<u8>>::empty(), c as nat + 1) =~= out@);
    }
    out
}

/// The number-all-lines law: when numbering starts at `k`, line `i`
/// (0-based) is emitted between its neighbours with the numeric prefix
/// `k + i` — so with the per-source start `k == 1`, line `i` carries
/// exactly the 1-based index `i + 1`, whatever earlier sources held.
pub proof fn lemma_number_all_record(ls: Seq<Seq<u8>>, k: nat, i: int)
    requires
        0 <= i < ls.len(),
    ensures
        spec_number_all(ls, k) == spec_number_all(ls.take(i), k) + spec_numbered(
            (k + i) as nat,
            ls[i],
        ) + spec_number_all(ls.skip(i + 1), (k + i + 1) as nat),
    decreases i,
{
    if i == 0 {
        assert(ls.take(0) =~= Seq::<Seq<u8>>::empty());
        assert(ls.drop_first() =~= ls.skip(1));
        assert(spec_number_all(ls.take(0), k) + spec_numbered(k, ls[0]) + spec_number_all(
            ls.skip(1),
            k + 1,
        ) =~= spec_numbered(k, ls[0]) + spec_number_all(ls.skip(1), k + 1));
    } else {
        let d = ls.drop_first();
        lemma_number_all_record(d, k + 1, i - 1);
        assert(ls.take(i).first() == ls[0]);
        assert(ls.take(i).drop_first() =~= d.take(i - 1));
        assert(d.skip(i) =~= ls.skip(i + 1));
        assert(d[i - 1] == ls[i]);
        assert(spec_number_all(ls.take(i), k) == spec_numbered(k, ls[0]) + spec_number_all(
            d.take(i - 1),
            k + 1,
        ));
        assert(spec_number_all(ls, k) =~= spec_number_all(ls.take(i), k) + spec_numbered(
            (k + i) as nat,
            ls[i],
        ) + spec_number_all(ls.skip(i + 1), (k + i + 1) as nat));
    }
}

/// The number-nonblank-lines law: when numbering starts at `k`, a blank
/// line `i` is emitted bare (no numeric prefix), and a non-blank line
/// `i` carries the prefix `k` plus the count of non-blank lines before
/// it — so with the per-source start `k == 1` the prefixes of the
/// non-blank lines are exactly 1, 2, 3, … in order.
pub proof fn lemma_number_nonblank_record(ls: Seq<Seq<u8>>, k: nat, i: int)
    requires
        0 <= i < ls.len(),
    ensures
        spec_number_nonblank(ls, k) == spec_number_nonblank(ls.take(i), k) + (if ls[i].len() == 0 {
            seq![NL]
        } else {
            spec_numbered((k + nonblank_count(ls.take(i))) as nat, ls[i])
        }) + spec_number_nonblank(
            ls.skip(i + 1),
            (k + nonblank_count(ls.take(i)) + (if ls[i].len() == 0 {
                0int
            } else {
                1int
            })) as nat,
        ),
    decreases i,
{
    if i == 0 {
        assert(ls.take(0) =~= Seq::<Seq<u8>>::empty());
        assert(ls.drop_first() =~= ls.skip(1));
        if ls[0].len() == 0 {
            assert(spec_number_nonblank(ls.take(0), k) + seq![NL] + spec_number_nonblank(
                ls.skip(1),
                k,
            ) =~= seq![NL] + spec_number_nonblank(ls.skip(1), k));
        } else {
            assert(spec_number_nonblank(ls.take(0), k) + spec_numbered(k, ls[0])
                + spec_number_nonblank(ls.skip(1), k + 1) =~= spec_numbered(k, ls[0])
                + spec_number_nonblank(ls.skip(1), k + 1));
        }
    } else {
        let d = ls.drop_first();
        let k2: nat = if ls[0].len() == 0 {
            k
        } else {
            k + 1
        };
        lemma_number_nonblank_record(d, k2, i - 1);
        assert(ls.take(i).first() == ls[0]);
        assert(ls.take(i).drop_first() =~= d.take(i - 1));
        assert(d.skip(i) =~= ls.skip(i + 1));
        assert(d[i - 1] == ls[i]);
        assert(nonblank_count(ls.take(i)) == (if ls[0].len() == 0 {
            0nat
        } else {
            1nat
        }) + nonblank_count(d.take(i - 1)));
        if ls[0].len() == 0 {
            assert(spec_number_nonblank(ls.take(i), k) == seq![NL] + spec_number_nonblank(
                d.take(i - 1),
                k2,
            ));
        } else {
            assert(spec_number_nonblank(ls.take(i), k) == spec_numbered(k, ls[0])
                + spec_number_nonblank(d.take(i - 1), k2));
        }
        assert(spec_number_nonblank(ls, k) =~= spec_number_nonblank(ls.take(i), k) + (if ls[i].len()
            == 0 {
            seq![NL]
        } else {
            spec_numbered((k + nonblank_count(ls.take(i))) as nat, ls[i])
        }) + spec_number_nonblank(
            ls.skip(i + 1),
            (k + nonblank_count(ls.take(i)) + (if ls[i].len() == 0 {
                0int
            } else {
                1int
            })) as nat,
        ));
    }
}

/// The first-N-bytes law: the bytes handed to the permissive decode
/// are exactly the first `min(n, content.len())` bytes of the content
/// — never more than `n`, and never padded beyond what is available.
pub proof fn lemma_first_bytes(content: Seq<u8>, n: usize)
    ensures
        ({
            let m = if n <= content.len() {
                n as int
            } else {
                content.len() as int
            };
            spec_render(Mode::FirstBytes(n), content) == lossy_of(content.take(m))
                && content.take(m).len() == m && m <= n
        }),
{
}

/// Renders one source's `content` under `mode`.
pub fn render_source(mode: &Mode, content: &Vec<u8>) -> (out: Vec<u8>)
    ensures
        out@ == spec_render(*mode, content@),
{
    match *mode {
        Mode::Plain => {
            let r = subrange_copy(content, 0, content.len());
            proof {
                assert(content@.subrange(0, content@.len() as int) =~= content@);
            }
            r
        },
        Mode::NumberAll => {
            let ls = split_lines(content);
            number_all_lines(&ls)
        },
        Mode::NumberNonblank => {
            let ls = split_lines(content);
            number_nonblank_lines(&ls)
        },
        Mode::FirstLines(n) => {
            let c = line_cut(content, n);
            subrange_copy(content, 0, c)
        },
        Mode::FirstBytes(n) => {
            let m = if n <= content.len() {
                n
            } else {
                content.len()
            };
            let p = subrange_copy(content, 0, m);
            decode_lossy(&p)
        },
    }
}

} // verus!
