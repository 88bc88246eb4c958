use vstd::prelude::*;
use vstd::utf8::encode_utf8;
use crate::text::{chars_of, repeat, string_from_chars};

verus! {

/// The length of `s` in bytes, as UTF-8.
pub open spec fn byte_len(s: Seq<char>) -> nat {
    encode_utf8(s).len()
}

/// The byte length of a frame's left and right parts together.
pub open spec fn pair_len(p: (String, String)) -> nat {
    byte_len(p.0@) + byte_len(p.1@)
}

/// The largest `pair_len` among `b`, zero for none.
pub open spec fn widest(b: Seq<(String, String)>) -> nat
    decreases b.len(),
{
    if b.len() == 0 {
        0
    } else {
        let w = widest(b.drop_last());
        let x = pair_len(b.last());
        if x > w {
            x
        } else {
            w
        }
    }
}

proof fn lemma_widest_bounds(b: Seq<(String, String)>)
    ensures
        forall|k: int| 0 <= k < b.len() ==> pair_len(#[trigger] b[k]) <= widest(b),
        forall|j: int| 0 <= j <= b.len() ==> widest(#[trigger] b.subrange(0, j)) <= widest(b),
    decreases b.len(),
{
    if b.len() > 0 {
        let d = b.drop_last();
        lemma_widest_bounds(d);
        assert forall|k: int| 0 <= k < b.len() implies pair_len(#[trigger] b[k]) <= widest(b) by {
            if k < d.len() {
                assert(b[k] == d[k]);
            }
        }
        assert forall|j: int| 0 <= j <= b.len() implies widest(#[trigger] b.subrange(0, j)) <= widest(b) by {
            if j < b.len() {
                assert(b.subrange(0, j) =~= d.subrange(0, j));
            } else {
                assert(b.subrange(0, j) =~= b);
            }
        }
    }
}

/// A spinner drawn around a focus text: frames of left and right parts,
/// and the frame to draw next.
#[derive(Debug)]
pub struct Animation {
    pub index: usize,
    pub frames: Vec<(String, String)>,
}

impl Animation {
    /// Builds the frames from `(left, right)` pairs. Each left part starts
    /// with a carriage return; each right part is padded with spaces so that
    /// every frame around a focus of `min_focus_len` bytes is as wide as the
    /// widest pair around one of `max_focus_len` bytes.
    pub fn construct(builder: Vec<(String, String)>, max_focus_len: usize, min_focus_len: usize) -> (a: Animation)
        requires
            widest(builder@) + max_focus_len <= usize::MAX,
            forall|k: int| 0 <= k < builder@.len() ==> pair_len(#[trigger] builder@[k]) + min_focus_len <= widest(builder@) + max_focus_len,
        ensures
            a.index == 0,
            a.frames@.len() == builder@.len(),
            forall|k: int| 0 <= k < builder@.len() ==> {
                &&& (#[trigger] a.frames@[k]).0@ == seq!['\r'] + builder@[k].0@
                &&& a.frames@[k].1@ == builder@[k].1@ + repeat(
                    ' ',
                    (widest(builder@) + max_focus_len - min_focus_len - pair_len(builder@[k])) as nat,
                )
            },
    {
        proof {
            lemma_widest_bounds(builder@);
        }
        let n = builder.len();
        let mut w: usize = 0;
        let mut k: usize = 0;
        while k < n
            invariant
                n == builder@.len(),
                k <= n,
                w == widest(builder@.subrange(0, k as int)),
                forall|k: int| 0 <= k < builder@.len() ==> pair_len(#[trigger] builder@[k]) <= widest(builder@),
                forall|j: int| 0 <= j <= builder@.len() ==> widest(#[trigger] builder@.subrange(0, j)) <= widest(builder@),
                widest(builder@) <= usize::MAX,
            decreases n - k,
        {
            let x = builder[k].0.as_str().len() + builder[k].1.as_str().len();
            proof {
                assert(builder@.subrange(0, k + 1).drop_last() =~= builder@.subrange(0, k as int));
            }
            if x > w {
                w = x;
            }
            k += 1;
        }
        assert(builder@.subrange(0, n as int) =~= builder@);
        let max_frame_len = w + max_focus_len;
        let mut frames: Vec<(String, String)> = Vec::new();
        let mut k: usize = 0;
        while k < n
            invariant
                n == builder@.len(),
                k <= n,
                max_frame_len == widest(builder@) + max_focus_len,
                forall|k: int| 0 <= k < builder@.len() ==> pair_len(#[trigger] builder@[k]) + min_focus_len <= widest(builder@) + max_focus_len,
                frames@.len() == k,
                forall|j: int| 0 <= j < k ==> {
                    &&& (#[trigger] frames@[j]).0@ == seq!['\r'] + builder@[j].0@
                    &&& frames@[j].1@ == builder@[j].1@ + repeat(
                        ' ',
                        (widest(builder@) + max_focus_len - min_focus_len - pair_len(builder@[j])) as nat,
                    )
                },
            decreases n - k,
        {
            let l = &builder[k].0;
            let r = &builder[k].1;
            assert(pair_len(builder@[k as int]) + min_focus_len <= max_frame_len);
            let num_repeats = max_frame_len - min_focus_len - l.as_str().len() - r.as_str().len();
            let mut left: Vec<char> = Vec::new();
            left.push('\r');
            let lc = chars_of(l.as_str());
            let mut i: usize = 0;
            while i < lc.len()
                invariant
                    i <= lc@.len(),
                    left@ == seq!['\r'] + lc@.subrange(0, i as int),
                decreases lc@.len() - i,
            {
                left.push(lc[i]);
                i += 1;
                assert(left@ =~= seq!['\r'] + lc@.subrange(0, i as int));
            }
            assert(lc@.subrange(0, lc@.len() as int) =~= lc@);
            let mut right = chars_of(r.as_str());
            let ghost r0 = right@;
            let mut i: usize = 0;
            while i < num_repeats
                invariant
                    i <= num_repeats,
                    right@ == r0 + repeat(' ', i as nat),
                decreases num_repeats - i,
            {
                right.push(' ');
                i += 1;
                assert(right@ =~= r0 + repeat(' ', i as nat));
            }
            frames.push((string_from_chars(left), string_from_chars(right)));
            k += 1;
        }
        Animation { index: 0, frames }
    }

    /// The text of the current frame around `focus`, and a move to the next
    /// frame, back to the first after the last; `None` where there is no
    /// current frame.
    pub fn next_frame(&mut self, focus: &str) -> (r: Option<String>)
        ensures
            final(self).frames@ == old(self).frames@,
            old(self).index < old(self).frames@.len() ==> {
                &&& r matches Some(t) && t@ == old(self).frames@[old(self).index as int].0@ + focus@
                    + old(self).frames@[old(self).index as int].1@
                &&& final(self).index == if old(self).index + 1 < old(self).frames@.len() {
                    old(self).index + 1
                } else {
                    0
                }
            },
            old(self).index >= old(self).frames@.len() ==> r is None && final(self).index == old(self).index,
    {
        if self.index < self.frames.len() {
            let mut v = chars_of(self.frames[self.index].0.as_str());
            let ghost v0 = v@;
            let f = chars_of(focus);
            let rc = chars_of(self.frames[self.index].1.as_str());
            let mut i: usize = 0;
            while i < f.len()
                invariant
                    i <= f@.len(),
                    v@ == v0 + f@.subrange(0, i as int),
                decreases f@.len() - i,
            {
                v.push(f[i]);
                i += 1;
                assert(v@ =~= v0 + f@.subrange(0, i as int));
            }
            assert(f@.subrange(0, f@.len() as int) =~= f@);
            let ghost v1 = v@;
            let mut i: usize = 0;
            while i < rc.len()
                invariant
                    i <= rc@.len(),
                    v@ == v1 + rc@.subrange(0, i as int),
                decreases rc@.len() - i,
            {
                v.push(rc[i]);
                i += 1;
                assert(v@ =~= v1 + rc@.subrange(0, i as int));
            }
            assert(rc@.subrange(0, rc@.len() as int) =~= rc@);
            if self.index < self.frames.len() - 1 {
                self.index = self.index + 1;
            } else {
                self.index = 0;
            }
            Some(string_from_chars(v))
        } else {
            None
        }
    }
}

} // verus!
