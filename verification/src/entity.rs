//! Character references in attribute values and text.
//!
//! The five predefined references (`&lt;` `&gt;` `&amp;` `&apos;` `&quot;`)
//! are replaced by the bytes they stand for; an ampersand that does not
//! start one of them is kept literally (lenient decoding: such an input can
//! never turn into a coordinate number, so a strict failure would change
//! nothing downstream).

use crate::scan::{B_AMP, B_APOS, B_GT, B_LT, B_QUOT, B_SEMI};
use vstd::prelude::*;

verus! {

pub open spec fn unescape(s: Seq<u8>) -> Seq<u8>
    decreases s.len(),
{
    if s.len() == 0 {
        s
    } else if s[0] == B_AMP {
        if s.len() >= 4 && s[1] == 108 && s[2] == 116 && s[3] == B_SEMI {
            seq![B_LT] + unescape(s.skip(4))
        } else if s.len() >= 4 && s[1] == 103 && s[2] == 116 && s[3] == B_SEMI {
            seq![B_GT] + unescape(s.skip(4))
        } else if s.len() >= 5 && s[1] == 97 && s[2] == 109 && s[3] == 112 && s[4] == B_SEMI {
            seq![B_AMP] + unescape(s.skip(5))
        } else if s.len() >= 6 && s[1] == 97 && s[2] == 112 && s[3] == 111 && s[4] == 115 && s[5]
            == B_SEMI {
            seq![B_APOS] + unescape(s.skip(6))
        } else if s.len() >= 6 && s[1] == 113 && s[2] == 117 && s[3] == 111 && s[4] == 116 && s[5]
            == B_SEMI {
            seq![B_QUOT] + unescape(s.skip(6))
        } else {
            seq![s[0]] + unescape(s.skip(1))
        }
    } else {
        seq![s[0]] + unescape(s.skip(1))
    }
}

/// Decodes the byte range `[from, upto)` of `s`.
pub fn unescape_range(s: &Vec<u8>, from: usize, upto: usize) -> (r: Vec<u8>)
    requires
        from <= upto <= s@.len(),
    ensures
        r@ == unescape(s@.subrange(from as int, upto as int)),
{
    let ghost whole = s@.subrange(from as int, upto as int);
    let mut out: Vec<u8> = Vec::new();
    let mut i = from;
    while i < upto
        invariant
            from <= i <= upto <= s@.len(),
            whole == s@.subrange(from as int, upto as int),
            unescape(whole) == out@ + unescape(s@.subrange(i as int, upto as int)),
        decreases upto - i,
    {
        let ghost sub = s@.subrange(i as int, upto as int);
        let left = upto - i;
        let c = s[i];
        let mapped: u8;
        let step: usize;
        if c == B_AMP && left >= 4 && s[i + 1] == 108 && s[i + 2] == 116 && s[i + 3] == B_SEMI {
            mapped = B_LT;
            step = 4;
        } else if c == B_AMP && left >= 4 && s[i + 1] == 103 && s[i + 2] == 116 && s[i + 3]
            == B_SEMI {
            mapped = B_GT;
            step = 4;
        } else if c == B_AMP && left >= 5 && s[i + 1] == 97 && s[i + 2] == 109 && s[i + 3] == 112
            && s[i + 4] == B_SEMI {
            mapped = B_AMP;
            step = 5;
        } else if c == B_AMP && left >= 6 && s[i + 1] == 97 && s[i + 2] == 112 && s[i + 3] == 111
            && s[i + 4] == 115 && s[i + 5] == B_SEMI {
            mapped = B_APOS;
            step = 6;
        } else if c == B_AMP && left >= 6 && s[i + 1] == 113 && s[i + 2] == 117 && s[i + 3] == 111
            && s[i + 4] == 116 && s[i + 5] == B_SEMI {
            mapped = B_QUOT;
            step = 6;
        } else {
            mapped = c;
            step = 1;
        }
        proof {
            assert(unescape(sub) == seq![mapped] + unescape(sub.skip(step as int)));
            assert(sub.skip(step as int) =~= s@.subrange(i + step as int, upto as int));
            assert(out@.push(mapped) + unescape(s@.subrange(i + step as int, upto as int)) =~= out@
                + unescape(s@.subrange(i as int, upto as int)));
        }
        out.push(mapped);
        i = i + step;
    }
    proof {
        assert(unescape(s@.subrange(upto as int, upto as int)) =~= Seq::<u8>::empty());
        assert(out@ =~= out@ + Seq::<u8>::empty());
    }
    out
}

} // verus!
