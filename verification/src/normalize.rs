//! The pattern normalizer: anchoring a pattern at both ends.
//!
//! A non-empty pattern is given a leading `^` and a trailing `$`, each
//! inserted only when not already present; the `$` is appended at the very
//! end.  The empty pattern is left empty: with no first or last byte to
//! inspect, no insertion is attempted.  Normalization is a pure, non-failing
//! transformation.

use vstd::prelude::*;

use crate::tools::{CARET, DOLLAR};

verus! {

/// What `normalize` returns, at the specification level.
pub open spec fn spec_normalize(s: Seq<u8>) -> Seq<u8> {
    if s.len() == 0 {
        s
    } else {
        let with_start = if s[0] == 94 {
            s
        } else {
            seq![94u8] + s
        };
        if with_start[with_start.len() - 1] == 36 {
            with_start
        } else {
            with_start + seq![36u8]
        }
    }
}

/// Anchor a pattern at both ends: prepend `^` and append `$` where they are
/// missing.  An empty pattern stays empty.
pub fn normalize(s: &[u8]) -> (r: Vec<u8>)
    ensures
        r@ == spec_normalize(s@),
{
    let mut out: Vec<u8> = Vec::new();
    if s.len() == 0 {
        assert(out@ =~= spec_normalize(s@));
        return out;
    }
    if s[0] != CARET {
        out.push(CARET);
    }
    let mut k: usize = 0;
    while k < s.len()
        invariant
            k <= s@.len(),
            s@.len() > 0,
            out@ == (if s@[0] == 94 {
                Seq::<u8>::empty()
            } else {
                seq![94u8]
            }) + s@.subrange(0, k as int),
        decreases s@.len() - k,
    {
        let ghost old_out = out@;
        out.push(s[k]);
        k = k + 1;
        proof {
            assert(out@ =~= (if s@[0] == 94 {
                Seq::<u8>::empty()
            } else {
                seq![94u8]
            }) + s@.subrange(0, k as int));
        }
    }
    proof {
        assert(s@.subrange(0, s@.len() as int) =~= s@);
    }
    if s[s.len() - 1] != DOLLAR {
        out.push(DOLLAR);
    }
    proof {
        let ws = if s@[0] == 94 {
            s@
        } else {
            seq![94u8] + s@
        };
        assert(ws[ws.len() - 1] == s@[s@.len() - 1]);
        if s@[s@.len() - 1] == 36 {
            assert(out@ =~= ws);
        } else {
            assert(out@ =~= ws + seq![36u8]);
        }
    }
    out
}

/// Is this pattern already anchored at both ends?
pub open spec fn is_anchored(s: Seq<u8>) -> bool {
    s.len() >= 1 && s[0] == 94 && s[s.len() - 1] == 36
}

/// Normalizing leaves an already-anchored pattern unchanged, and leaves the
/// empty pattern empty.
pub proof fn lemma_normalize_anchored_unchanged(s: Seq<u8>)
    requires
        is_anchored(s) || s.len() == 0,
    ensures
        spec_normalize(s) == s,
{
}

/// A non-empty normalized pattern is anchored at both ends.
pub proof fn lemma_normalize_anchors(s: Seq<u8>)
    requires
        s.len() > 0,
    ensures
        is_anchored(spec_normalize(s)),
{
    let r = spec_normalize(s);
    if s[0] == 94 {
        if s[s.len() - 1] == 36 {
        } else {
            assert(r[r.len() - 1] == 36);
        }
    } else {
        let ws = seq![94u8] + s;
        assert(ws[0] == 94);
        if ws[ws.len() - 1] == 36 {
        } else {
            assert(r[0] == 94);
            assert(r[r.len() - 1] == 36);
        }
    }
}

/// Normalization is idempotent: normalizing a normalized pattern returns it
/// unchanged.
pub proof fn lemma_normalize_idempotent(s: Seq<u8>)
    ensures
        spec_normalize(spec_normalize(s)) == spec_normalize(s),
{
    if s.len() == 0 {
    } else {
        lemma_normalize_anchors(s);
        lemma_normalize_anchored_unchanged(spec_normalize(s));
    }
}

} // verus!
