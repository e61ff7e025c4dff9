//! Joining caller-supplied words into one output line, as the echo
//! utility does: single spaces between words, and a trailing newline
//! unless it is suppressed.

use vstd::prelude::*;
use crate::lines::{NL, append_bytes, byte_views, subrange_copy};

verus! {

/// The space byte.
pub const SP: u8 = 32;

/// The words of `ws` joined with single spaces.
pub open spec fn spec_join_words(ws: Seq<Seq<u8>>) -> Seq<u8>
    decreases ws.len(),
{
    if ws.len() == 0 {
        seq![]
    } else if ws.len() == 1 {
        ws[0]
    } else {
        ws.first() + seq![SP] + spec_join_words(ws.drop_first())
    }
}

/// The echo line for `ws`: the words joined with single spaces, then a
/// newline unless `omit_newline` holds.
pub open spec fn spec_echo_line(ws: Seq<Seq<u8>>, omit_newline: bool) -> Seq<u8> {
    spec_join_words(ws) + (if omit_newline {
        seq![]
    } else {
        seq![NL]
    })
}

fn join_from(ws: &Vec<Vec<u8>>, i: usize) -> (r: Vec<u8>)
    requires
        i <= ws@.len(),
    ensures
        r@ == spec_join_words(byte_views(ws@).skip(i as int)),
    decreases ws@.len() - i,
{
    let ghost views = byte_views(ws@);
    if i == ws.len() {
        let r: Vec<u8> = Vec::new();
        proof {
            assert(views.skip(i as int) =~= Seq::<Seq<u8>>::empty());
        }
        r
    } else if i + 1 == ws.len() {
        let r = subrange_copy(&ws[i], 0, ws[i].len());
        proof {
            assert(views.skip(i as int).len() == 1);
            assert(views.skip(i as int)[0] == views[i as int]);
            assert(r@ =~= views[i as int]);
        }
        r
    } else {
        let mut r = subrange_copy(&ws[i], 0, ws[i].len());
        r.push(SP);
        let rest = join_from(ws, i + 1);
        append_bytes(&mut r, &rest);
        proof {
            assert(views.skip(i as int).first() == views[i as int]);
            assert(views.skip(i as int).drop_first() =~= views.skip(i as int + 1));
            assert(r@ =~= views[i as int] + seq![SP] + spec_join_words(views.skip(i as int + 1)));
        }
        r
    }
}

/// Builds the echo line for the words `ws`.
pub fn joined_with_spaces(ws: &Vec<Vec<u8>>, omit_newline: bool) -> (r: Vec<u8>)
    ensures
        r@ == spec_echo_line(byte_views(ws@), omit_newline),
{
    let mut r = join_from(ws, 0);
    proof {
        assert(byte_views(ws@).skip(0) =~= byte_views(ws@));
    }
    if !omit_newline {
        r.push(NL);
    }
    proof {
        assert(r@ =~= spec_echo_line(byte_views(ws@), omit_newline));
    }
    r
}

} // verus!
