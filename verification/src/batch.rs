//! The batch formatter: drives an ordered list of source references,
//! applies the selected transformation to each source that resolved,
//! and isolates per-source failure — a reference that could not be read
//! contributes one diagnostic line instead of output and never stops
//! the batch.

use vstd::prelude::*;
use vstd::seq_lib::lemma_flatten_concat;
use crate::lines::{NL, append_bytes, byte_views};
use crate::render::{Mode, render_source, spec_render};

verus! {

/// The outcome of resolving and reading one source reference: its
/// whole content, or the cause of the failure, for the diagnostic.
pub enum Resolution {
    Content(Vec<u8>),
    Failure(Vec<u8>),
}

/// A batch configuration: the ordered source references, as byte
/// strings (the caller decides which token names standard input), and
/// the transformation mode with its budget.
pub struct Config {
    pub files: Vec<Vec<u8>>,
    pub mode: Mode,
}

impl Config {
    /// At least one source reference, and a positive budget when the
    /// mode carries one.
    pub open spec fn wf(self) -> bool {
        self.files@.len() > 0 && self.mode.wf()
    }

    /// Builds a configuration, rejecting an empty reference list and a
    /// zero budget before any source is touched.
    pub fn new(files: Vec<Vec<u8>>, mode: Mode) -> (r: Option<Config>)
        ensures
            match r {
                Some(c) => c.files == files && c.mode == mode && c.wf(),
                None => !(files@.len() > 0 && mode.wf()),
            },
    {
        let ok = files.len() > 0 && match mode {
            Mode::FirstLines(n) => n >= 1,
            Mode::FirstBytes(n) => n >= 1,
            _ => true,
        };
        if ok {
            Some(Config { files, mode })
        } else {
            None
        }
    }
}

/// The bytes of `==> `.
pub open spec fn header_open() -> Seq<u8> {
    seq![61u8, 61u8, 62u8, 32u8]
}

/// The bytes of ` <==` followed by a newline.
pub open spec fn header_close() -> Seq<u8> {
    seq![32u8, 60u8, 61u8, 61u8, 10u8]
}

/// The header line announcing source `name` at position `i`: a blank
/// line first for every reference after the first, then the name
/// between arrows.
pub open spec fn spec_header(name: Seq<u8>, i: int) -> Seq<u8> {
    (if i > 0 {
        seq![NL]
    } else {
        seq![]
    }) + header_open() + name + header_close()
}

/// The diagnostic line for a failed source: the reference verbatim,
/// a separator, and the cause (without a trailing newline).
pub open spec fn spec_diag(name: Seq<u8>, cause: Seq<u8>) -> Seq<u8> {
    name + seq![58u8, 32u8] + cause
}

/// What the source named `name` at position `i` of a batch of `total`
/// references contributes to standard output: nothing on failure;
/// otherwise its rendered content, preceded by its header when the
/// batch has more than one reference.
pub open spec fn spec_piece(name: Seq<u8>, total: int, mode: Mode, src: Resolution, i: int) -> Seq<
    u8,
> {
    match src {
        Resolution::Content(c) => (if total > 1 {
            spec_header(name, i)
        } else {
            seq![]
        }) + spec_render(mode, c@),
        Resolution::Failure(_) => seq![],
    }
}

/// What that source contributes to the error stream: one diagnostic
/// line on failure, nothing otherwise.
pub open spec fn spec_err_piece(name: Seq<u8>, src: Resolution) -> Seq<Seq<u8>> {
    match src {
        Resolution::Content(_) => seq![],
        Resolution::Failure(e) => seq![spec_diag(name, e@)],
    }
}

/// The per-source stdout contributions of a whole batch, in order.
pub open spec fn spec_pieces(files: Seq<Seq<u8>>, mode: Mode, srcs: Seq<Resolution>) -> Seq<
    Seq<u8>,
> {
    Seq::new(srcs.len(), |i: int| spec_piece(files[i], files.len() as int, mode, srcs[i], i))
}

/// All of standard output for a batch.
pub open spec fn spec_stdout(files: Seq<Seq<u8>>, mode: Mode, srcs: Seq<Resolution>) -> Seq<u8> {
    spec_pieces(files, mode, srcs).flatten()
}

/// The per-source error-stream contributions of a whole batch.
pub open spec fn spec_err_pieces(files: Seq<Seq<u8>>, srcs: Seq<Resolution>) -> Seq<Seq<Seq<u8>>> {
    Seq::new(srcs.len(), |i: int| spec_err_piece(files[i], srcs[i]))
}

/// The error-stream lines for a batch, in source order.
pub open spec fn spec_errs(files: Seq<Seq<u8>>, srcs: Seq<Resolution>) -> Seq<Seq<u8>> {
    spec_err_pieces(files, srcs).flatten()
}

fn header_bytes(name: &Vec<u8>, index: usize) -> (h: Vec<u8>)
    ensures
        h@ == spec_header(name@, index as int),
{
    let mut h: Vec<u8> = Vec::new();
    if index > 0 {
        h.push(NL);
    }
    h.push(61);
    h.push(61);
    h.push(62);
    h.push(32);
    append_bytes(&mut h, name);
    h.push(32);
    h.push(60);
    h.push(61);
    h.push(61);
    h.push(NL);
    proof {
        assert(h@ =~= spec_header(name@, index as int));
    }
    h
}

fn diag_bytes(name: &Vec<u8>, cause: &Vec<u8>) -> (d: Vec<u8>)
    ensures
        d@ == spec_diag(name@, cause@),
{
    let mut d: Vec<u8> = Vec::new();
    append_bytes(&mut d, name);
    d.push(58);
    d.push(32);
    append_bytes(&mut d, cause);
    proof {
        assert(d@ =~= spec_diag(name@, cause@));
    }
    d
}

/// Processes one source of a batch lazily: returns the bytes it adds
/// to standard output and the diagnostic line, if any, it adds to the
/// error stream. `total` is the number of references in the batch and
/// `index` this source's position in it.
pub fn render_entry(mode: &Mode, total: usize, name: &Vec<u8>, index: usize, src: &Resolution) -> (r:
    (Vec<u8>, Option<Vec<u8>>))
    ensures
        r.0@ == spec_piece(name@, total as int, *mode, *src, index as int),
        match r.1 {
            Some(d) => src is Failure && d@ == spec_diag(name@, src->Failure_0@),
            None => src is Content,
        },
{
    match src {
        Resolution::Content(c) => {
            let mut out: Vec<u8> = Vec::new();
            if total > 1 {
                let h = header_bytes(name, index);
                append_bytes(&mut out, &h);
            }
            let rendered = render_source(mode, c);
            append_bytes(&mut out, &rendered);
            proof {
                assert(out@ =~= spec_piece(name@, total as int, *mode, *src, index as int));
            }
            (out, None)
        },
        Resolution::Failure(e) => {
            let d = diag_bytes(name, e);
            (Vec::new(), Some(d))
        },
    }
}

/// The whole output of one batch run.
pub struct BatchOutput {
    /// Bytes for standard output.
    pub out: Vec<u8>,
    /// Diagnostic lines for the error stream, one per failed source,
    /// in source order.
    pub errs: Vec<Vec<u8>>,
}

/// Runs a whole batch: every source contributes in configuration
/// order; a failed source contributes one diagnostic line instead of
/// output and never stops the batch.
pub fn format_batch(config: &Config, srcs: &Vec<Resolution>) -> (r: BatchOutput)
    requires
        config.wf(),
        srcs@.len() == config.files@.len(),
    ensures
        r.out@ == spec_stdout(byte_views(config.files@), config.mode, srcs@),
        byte_views(r.errs@) == spec_errs(byte_views(config.files@), srcs@),
{
    let ghost files = byte_views(config.files@);
    let ghost pieces = spec_pieces(files, config.mode, srcs@);
    let ghost epieces = spec_err_pieces(files, srcs@);
    let mut out: Vec<u8> = Vec::new();
    let mut errs: Vec<Vec<u8>> = Vec::new();
    let mut i: usize = 0;
    proof {
        assert(pieces.take(0) =~= Seq::<Seq<u8>>::empty());
        assert(epieces.take(0) =~= Seq::<Seq<Seq<u8>>>::empty());
        assert(out@ =~= pieces.take(0).flatten());
        assert(byte_views(errs@) =~= epieces.take(0).flatten());
    }
    while i < srcs.len()
        invariant
            i <= srcs@.len(),
            srcs@.len() == config.files@.len(),
            files == byte_views(config.files@),
            pieces == spec_pieces(files, config.mode, srcs@),
            epieces == spec_err_pieces(files, srcs@),
            out@ == pieces.take(i as int).flatten(),
            byte_views(errs@) == epieces.take(i as int).flatten(),
        decreases srcs@.len() - i,
    {
        let ghost prev_errs = errs@;
        let (piece, diag) = render_entry(
            &config.mode,
            config.files.len(),
            &config.files[i],
            i,
            &srcs[i],
        );
        append_bytes(&mut out, &piece);
        proof {
            assert(pieces.take(i + 1) =~= pieces.take(i as int).push(pieces[i as int]));
            pieces.take(i as int).lemma_flatten_push(pieces[i as int]);
            assert(piece@ == pieces[i as int]);
        }
        match diag {
            Some(d) => {
                errs.push(d);
                proof {
                    assert(epieces[i as int] =~= seq![spec_diag(files[i as int], srcs@[i as int]->Failure_0@)]);
                    assert(epieces.take(i + 1) =~= epieces.take(i as int).push(epieces[i as int]));
                    epieces.take(i as int).lemma_flatten_push(epieces[i as int]);
                    assert(byte_views(errs@) =~= byte_views(prev_errs) + epieces[i as int]);
                }
            },
            None => {
                proof {
                    assert(epieces[i as int] =~= Seq::<Seq<u8>>::empty());
                    assert(epieces.take(i + 1) =~= epieces.take(i as int).push(epieces[i as int]));
                    epieces.take(i as int).lemma_flatten_push(epieces[i as int]);
                    assert(byte_views(errs@) + epieces[i as int] =~= byte_views(errs@));
                }
            },
        }
        i = i + 1;
    }
    proof {
        assert(pieces.take(srcs@.len() as int) =~= pieces);
        assert(epieces.take(srcs@.len() as int) =~= epieces);
    }
    BatchOutput { out, errs }
}

/// The plain-copy law: when every source of a batch resolves, plain
/// copy writes the byte-for-byte concatenation of the contents in
/// configuration order — bare for a single-reference batch, and with
/// each source's header inserted exactly at its boundary when the
/// batch holds more than one reference.
pub proof fn lemma_plain_copy(files: Seq<Seq<u8>>, srcs: Seq<Resolution>)
    requires
        files.len() == srcs.len(),
        forall|i: int| 0 <= i < srcs.len() ==> srcs[i] is Content,
    ensures
        spec_stdout(files, Mode::Plain, srcs) == Seq::new(
            srcs.len(),
            |i: int|
                (if files.len() > 1 {
                    spec_header(files[i], i)
                } else {
                    seq![]
                }) + srcs[i]->Content_0@,
        ).flatten(),
        srcs.len() == 1 ==> spec_stdout(files, Mode::Plain, srcs) == srcs[0]->Content_0@,
{
    let p = spec_pieces(files, Mode::Plain, srcs);
    let q = Seq::new(
        srcs.len(),
        |i: int|
            (if files.len() > 1 {
                spec_header(files[i], i)
            } else {
                seq![]
            }) + srcs[i]->Content_0@,
    );
    assert(p =~= q);
    if srcs.len() == 1 {
        p.lemma_flatten_singleton();
        assert(p[0] =~= srcs[0]->Content_0@);
    }
}

/// The failure-isolation law: replacing source `j`'s outcome by a
/// failure removes exactly that source's contribution from standard
/// output — every other source still contributes the same bytes, in
/// the same order — and adds exactly one diagnostic line for `j` to
/// the error stream, leaving the other diagnostics unchanged.
pub proof fn lemma_failure_isolation(
    files: Seq<Seq<u8>>,
    mode: Mode,
    srcs: Seq<Resolution>,
    j: int,
    cause: Vec<u8>,
)
    requires
        files.len() == srcs.len(),
        0 <= j < srcs.len(),
    ensures
        ({
            let p = spec_pieces(files, mode, srcs);
            let ep = spec_err_pieces(files, srcs);
            let damaged = srcs.update(j, Resolution::Failure(cause));
            spec_stdout(files, mode, srcs) == p.take(j).flatten() + p[j] + p.skip(j + 1).flatten()
                && spec_stdout(files, mode, damaged) == p.take(j).flatten() + p.skip(
                j + 1,
            ).flatten() && spec_errs(files, damaged) == ep.take(j).flatten() + seq![
                spec_diag(files[j], cause@),
            ] + ep.skip(j + 1).flatten()
        }),
{
    let p = spec_pieces(files, mode, srcs);
    let ep = spec_err_pieces(files, srcs);
    let damaged = srcs.update(j, Resolution::Failure(cause));
    let pd = spec_pieces(files, mode, damaged);
    let epd = spec_err_pieces(files, damaged);

    assert(p =~= p.take(j) + seq![p[j]] + p.skip(j + 1));
    lemma_flatten_concat(p.take(j) + seq![p[j]], p.skip(j + 1));
    lemma_flatten_concat(p.take(j), seq![p[j]]);
    seq![p[j]].lemma_flatten_singleton();

    assert(pd =~= p.take(j) + seq![seq![]] + p.skip(j + 1));
    lemma_flatten_concat(p.take(j) + seq![seq![]], p.skip(j + 1));
    lemma_flatten_concat(p.take(j), seq![seq![]]);
    seq![Seq::<u8>::empty()].lemma_flatten_singleton();
    assert(seq![Seq::<u8>::empty()] =~= seq![seq![]]);
    assert(p.take(j).flatten() + seq![] =~= p.take(j).flatten());

    let dline = seq![spec_diag(files[j], cause@)];
    assert(epd =~= ep.take(j) + seq![dline] + ep.skip(j + 1));
    lemma_flatten_concat(ep.take(j) + seq![dline], ep.skip(j + 1));
    lemma_flatten_concat(ep.take(j), seq![dline]);
    seq![dline].lemma_flatten_singleton();
}

} // verus!
