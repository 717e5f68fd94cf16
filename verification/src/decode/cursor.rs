//! A resumable decoder bound to an encoded byte range and an element count.

use crate::decode::decode_num_scalar;
use crate::decode::decode_quads_scalar;
use crate::decode::DecodeQuadSink;
use crate::decode::Decoder;
use crate::decode::WriteQuadToSlice;
use crate::model;
use crate::tables;
use vstd::arithmetic::div_mod::lemma_fundamental_div_mod;
use vstd::arithmetic::div_mod::lemma_fundamental_div_mod_converse;
use vstd::prelude::*;
use vstd::slice::slice_subrange;

verus! {

/// How many numbers one `decode_sink` call with the given `max` delivers:
/// whole quads only, except that reaching the end of the stream delivers the
/// partial tail as well.
pub open spec fn sink_delivery(remaining: int, max: int) -> int {
    if max >= remaining {
        remaining
    } else {
        4 * (max / 4)
    }
}

/// The resumability law: for a `max` that is a multiple of four, one
/// `decode_sink` call delivers exactly `max` numbers (when that many remain),
/// a second call with the rest as `max` delivers the rest, and the two
/// delivered segments joined are what a single call over everything
/// delivers.
pub proof fn lemma_resumable_split(s: Seq<u32>, d: int, k: int)
    requires
        0 <= d <= s.len(),
        0 <= k <= s.len() - d,
        k % 4 == 0,
    ensures
        sink_delivery(s.len() - d, k) == k,
        sink_delivery(s.len() - d - k, s.len() - d - k) == s.len() - d - k,
        s.subrange(d, d + k) + s.subrange(d + k, s.len() as int) == s.subrange(
            d,
            s.len() as int,
        ),
{
    if k < s.len() - d {
        lemma_fundamental_div_mod(k, 4);
        lemma_fundamental_div_mod_converse(k, 4, k / 4, 0);
    }
    assert(s.subrange(d, d + k) + s.subrange(d + k, s.len() as int) =~= s.subrange(
        d,
        s.len() as int,
    ));
}

/// A decoder over an encoded byte range that can fill a buffer, feed a sink,
/// skip ahead, and resume mid-stream at any quad boundary.
pub struct DecodeCursor<'a> {
    control_bytes: &'a [u8],
    encoded_nums: &'a [u8],
    total_count: usize,
    nums_decoded: usize,
    bytes_read: usize,
}

impl<'a> DecodeCursor<'a> {
    /// The control region.
    pub closed spec fn ctrl(&self) -> Seq<u8> {
        self.control_bytes@
    }

    /// The value region, with whatever input follows it.
    pub closed spec fn vals(&self) -> Seq<u8> {
        self.encoded_nums@
    }

    /// The element count given at construction.
    pub closed spec fn count(&self) -> int {
        self.total_count as int
    }

    /// Numbers decoded or skipped so far.
    pub closed spec fn done(&self) -> int {
        self.nums_decoded as int
    }

    /// Value bytes consumed so far.
    pub closed spec fn offset(&self) -> int {
        self.bytes_read as int
    }

    /// Well-formedness: the regions fit the count, the position is at a quad
    /// boundary or at the end, and the byte offset matches the position.
    pub open spec fn wf(&self) -> bool {
        &&& self.ctrl().len() == model::control_len(self.count())
        &&& model::num_offset(self.ctrl(), self.count()) <= self.vals().len()
        &&& self.ctrl().len() + self.vals().len() <= usize::MAX
        &&& 0 <= self.done() <= self.count()
        &&& self.done() % 4 == 0 || self.done() == self.count()
        &&& self.offset() == model::num_offset(self.ctrl(), self.done())
    }

    /// The numbers the whole range decodes to.
    pub open spec fn stream(&self) -> Seq<u32> {
        model::decoded(self.ctrl(), self.vals(), self.count())
    }

    /// Bind a cursor to `input`, which must hold a complete encoding of
    /// `count` numbers (extra bytes after it are left alone).
    pub fn new(input: &'a [u8], count: usize) -> (c: DecodeCursor<'a>)
        requires
            count + 3 <= usize::MAX,
            model::control_len(count as int) <= input@.len(),
            model::num_offset(
                input@.subrange(0, model::control_len(count as int)),
                count as int,
            ) <= input@.len() - model::control_len(count as int),
        ensures
            c.wf(),
            c.ctrl() == input@.subrange(0, model::control_len(count as int)),
            c.vals() == input@.skip(model::control_len(count as int)),
            c.count() == count,
            c.done() == 0,
            c.offset() == 0,
    {
        let ilen = input.len();
        let cbl = (count + 3) / 4;
        let ctrl = slice_subrange(input, 0, cbl);
        let vals = slice_subrange(input, cbl, ilen);
        proof {
            lemma_fundamental_div_mod_converse(0, 4, 0, 0);
            assert(input@.skip(cbl as int) =~= input@.subrange(cbl as int, ilen as int));
        }
        DecodeCursor {
            control_bytes: ctrl,
            encoded_nums: vals,
            total_count: count,
            nums_decoded: 0,
            bytes_read: 0,
        }
    }

    /// How many encoded bytes have been consumed: the whole control region
    /// plus the value bytes of everything decoded or skipped.
    pub fn input_consumed(&self) -> (r: usize)
        requires
            self.wf(),
        ensures
            r == model::control_len(self.count()) + model::num_offset(self.ctrl(), self.done()),
    {
        proof {
            model::lemma_num_offset_mono(self.ctrl(), 0, self.done());
            model::lemma_num_offset_mono(self.ctrl(), self.done(), self.count());
            lemma_fundamental_div_mod(self.total_count as int + 3, 4);
            lemma_fundamental_div_mod_converse(0, 4, 0, 0);
        }
        self.control_bytes.len() + self.bytes_read
    }

    /// Skip the next `n` numbers without delivering them. `n` must stay
    /// within the remaining count, and must land on a quad boundary unless it
    /// reaches the end.
    #[verifier::rlimit(100)]
    #[verifier::spinoff_prover]
    pub fn skip(&mut self, n: usize)
        requires
            old(self).wf(),
            old(self).done() + n <= old(self).count(),
            n % 4 == 0 || old(self).done() + n == old(self).count(),
        ensures
            final(self).wf(),
            final(self).ctrl() == old(self).ctrl(),
            final(self).vals() == old(self).vals(),
            final(self).count() == old(self).count(),
            final(self).done() == old(self).done() + n,
    {
        let ghost ctrl = self.control_bytes@;
        let ghost d0 = self.nums_decoded as int;
        if n == 0 {
            return ;
        }
        let elen = self.encoded_nums.len();
        let quads = n / 4;
        let start_quad = self.nums_decoded / 4;
        proof {
            lemma_fundamental_div_mod(self.nums_decoded as int, 4);
            lemma_fundamental_div_mod(n as int, 4);
            lemma_fundamental_div_mod(self.total_count as int + 3, 4);
        }
        let mut q: usize = 0;
        while q < quads
            invariant
                0 <= q <= quads,
                self.control_bytes@ == ctrl,
                self.encoded_nums@ == old(self).encoded_nums@,
                self.total_count == old(self).total_count,
                self.nums_decoded == old(self).nums_decoded,
                elen == self.encoded_nums@.len(),
                old(self).wf(),
                d0 == old(self).done(),
                d0 % 4 == 0,
                d0 == 4 * start_quad,
                d0 + 4 * quads <= self.total_count,
                self.total_count <= 4 * ctrl.len(),
                model::num_offset(ctrl, self.total_count as int) <= elen,
                self.bytes_read == model::num_offset(ctrl, d0 + 4 * q),
            decreases quads - q,
        {
            proof {
                model::lemma_num_offset_quad(ctrl, start_quad + q as int);
                model::lemma_num_offset_quad(ctrl, start_quad + q + 1);
                model::lemma_num_offset_mono(ctrl, d0 + 4 * q + 4, self.total_count as int);
            }
            let c = self.control_bytes[start_quad + q];
            let step = tables::decode_length_per_quad(c);
            self.bytes_read = self.bytes_read + step;
            q = q + 1;
        }
        let leftover = n % 4;
        if leftover > 0 {
            let ghost d1 = d0 + 4 * quads;
            proof {
                model::lemma_num_offset_step(ctrl, d1);
                model::lemma_num_offset_step(ctrl, d1 + 1);
                model::lemma_num_offset_step(ctrl, d1 + 2);
                lemma_fundamental_div_mod_converse(d1, 4, start_quad + quads, 0);
                lemma_fundamental_div_mod_converse(d1 + 1, 4, start_quad + quads, 1);
                lemma_fundamental_div_mod_converse(d1 + 2, 4, start_quad + quads, 2);
                model::lemma_num_offset_mono(ctrl, d1 + leftover, self.total_count as int);
                model::lemma_num_offset_mono(ctrl, d1, d1 + leftover);
            }
            let c = self.control_bytes[start_quad + quads];
            let (l0, l1, l2, _l3) = tables::decode_length_per_num(c);
            self.bytes_read = self.bytes_read + l0;
            if leftover >= 2 {
                self.bytes_read = self.bytes_read + l1;
            }
            if leftover >= 3 {
                self.bytes_read = self.bytes_read + l2;
            }
        }
        self.nums_decoded = self.nums_decoded + n;
    }

    /// Decode the next `quads` complete quads into `output[0..4 * quads]`.
    #[verifier::rlimit(100)]
    #[verifier::spinoff_prover]
    fn decode_complete_quads<D: Decoder>(&mut self, output: &mut Vec<u32>, quads: usize)
        requires
            old(self).wf(),
            old(self).done() % 4 == 0,
            old(self).done() + 4 * quads <= old(self).count(),
            4 * quads <= old(output)@.len(),
        ensures
            final(self).wf(),
            final(self).ctrl() == old(self).ctrl(),
            final(self).vals() == old(self).vals(),
            final(self).count() == old(self).count(),
            final(self).done() == old(self).done() + 4 * quads,
            final(output)@.len() == old(output)@.len(),
            forall|i: int|
                0 <= i < 4 * quads ==> final(output)@[i] == old(self).stream()[old(self).done()
                    + i],
            forall|i: int|
                4 * quads <= i < old(output)@.len() ==> final(output)@[i] == old(output)@[i],
    {
        let ghost ctrl = self.control_bytes@;
        let ghost vals = self.encoded_nums@;
        let ghost d0 = self.nums_decoded as int;
        let ghost br0 = self.bytes_read as int;
        let elen = self.encoded_nums.len();
        let start_quad = self.nums_decoded / 4;
        let quads_todo = quads;
        let sq_end = start_quad + quads_todo;
        proof {
            lemma_fundamental_div_mod(self.nums_decoded as int, 4);
            lemma_fundamental_div_mod(self.total_count as int + 3, 4);
            model::lemma_num_offset_quad(ctrl, start_quad as int);
            model::lemma_num_offset_quad(ctrl, sq_end as int);
            model::lemma_num_offset_mono(ctrl, 4 * sq_end as int, self.total_count as int);
            model::lemma_num_offset_mono(ctrl, 0, d0);
            model::lemma_num_offset_mono(ctrl, d0, self.total_count as int);
            model::lemma_ctrl_prefix_skip(ctrl, start_quad as int, quads_todo as int);
            model::lemma_ctrl_prefix_agree(
                ctrl.subrange(start_quad as int, sq_end as int),
                ctrl.skip(start_quad as int),
                quads_todo as int,
            );
        }
        let ctrl_sub = slice_subrange(self.control_bytes, start_quad, sq_end);
        let vals_sub = slice_subrange(self.encoded_nums, self.bytes_read, elen);
        let (n1, b1) = D::decode_quads(ctrl_sub, vals_sub, output, 0, quads_todo);
        let k1 = n1 / 4;
        let ghost o1 = output@;
        proof {
            lemma_fundamental_div_mod(n1 as int, 4);
            model::lemma_ctrl_prefix_agree(ctrl_sub@, ctrl.skip(start_quad as int), k1 as int);
            model::lemma_ctrl_prefix_skip(ctrl, start_quad as int, k1 as int);
            model::lemma_num_offset_quad(ctrl, start_quad + k1 as int);
            model::lemma_num_offset_mono(
                ctrl,
                4 * (start_quad + k1) as int,
                self.total_count as int,
            );
            model::lemma_ctrl_prefix_skip(
                ctrl,
                start_quad + k1 as int,
                quads_todo as int - k1,
            );
            model::lemma_ctrl_prefix_agree(
                ctrl.subrange(start_quad + k1 as int, sq_end as int),
                ctrl.skip(start_quad + k1 as int),
                quads_todo as int - k1,
            );
        }
        let ctrl_sub2 = slice_subrange(self.control_bytes, start_quad + k1, sq_end);
        let vals_sub2 = slice_subrange(self.encoded_nums, self.bytes_read + b1, elen);
        let (n2, b2) = decode_quads_scalar(ctrl_sub2, vals_sub2, output, n1, quads_todo - k1);
        proof {
            model::lemma_ctrl_prefix_agree(
                ctrl_sub2@,
                ctrl.skip(start_quad + k1 as int),
                quads_todo as int - k1,
            );
        }
        self.nums_decoded = self.nums_decoded + n1 + n2;
        self.bytes_read = self.bytes_read + b1 + b2;
        proof {
            assert(self.bytes_read == model::num_offset(ctrl, d0 + 4 * quads_todo));
            assert forall|i: int|
                0 <= i < n1 + n2 implies output@[i] == model::decoded_num(ctrl, vals, d0 + i) by {
                if i < n1 {
                    assert(output@[i] == o1[i]);
                    assert(o1[i] == model::decoded_num(ctrl_sub@, vals_sub@, i));
                    model::lemma_decoded_num_agree(
                        ctrl_sub@,
                        ctrl.skip(start_quad as int),
                        vals_sub@,
                        i,
                    );
                    model::lemma_decoded_num_skip(ctrl, vals, start_quad as int, br0, i);
                } else {
                    assert(output@[i] == model::decoded_num(ctrl_sub2@, vals_sub2@, i - n1));
                    model::lemma_decoded_num_agree(
                        ctrl_sub2@,
                        ctrl.skip(start_quad + k1 as int),
                        vals_sub2@,
                        i - n1,
                    );
                    model::lemma_decoded_num_skip(
                        ctrl,
                        vals,
                        start_quad + k1 as int,
                        br0 + b1,
                        i - n1,
                    );
                }
            }
        }
    }

    /// Decode the next `todo` numbers into `output[0..todo]`.
    #[verifier::rlimit(100)]
    #[verifier::spinoff_prover]
    fn decode_into<D: Decoder>(&mut self, output: &mut Vec<u32>, todo: usize)
        requires
            old(self).wf(),
            todo <= old(self).count() - old(self).done(),
            todo % 4 == 0 || todo == old(self).count() - old(self).done(),
            todo <= old(output)@.len(),
        ensures
            final(self).wf(),
            final(self).ctrl() == old(self).ctrl(),
            final(self).vals() == old(self).vals(),
            final(self).count() == old(self).count(),
            final(self).done() == old(self).done() + todo,
            final(output)@.len() == old(output)@.len(),
            forall|i: int|
                0 <= i < todo ==> final(output)@[i] == old(self).stream()[old(self).done() + i],
            forall|i: int|
                todo <= i < old(output)@.len() ==> final(output)@[i] == old(output)@[i],
    {
        let ghost ctrl = self.control_bytes@;
        let ghost vals = self.encoded_nums@;
        let ghost d0 = self.nums_decoded as int;
        if todo == 0 {
            return ;
        }
        let elen = self.encoded_nums.len();
        let quads_todo = todo / 4;
        proof {
            lemma_fundamental_div_mod(self.nums_decoded as int, 4);
            lemma_fundamental_div_mod(todo as int, 4);
            lemma_fundamental_div_mod(self.total_count as int + 3, 4);
        }
        self.decode_complete_quads::<D>(output, quads_todo);
        let done_quads = 4 * quads_todo;
        let leftover = todo - done_quads;
        if leftover > 0 {
            let tail_quad = self.nums_decoded / 4;
            let ghost d1 = d0 + 4 * quads_todo;
            proof {
                lemma_fundamental_div_mod_converse(d1, 4, d0 / 4 + quads_todo, 0);
                model::lemma_num_offset_step(ctrl, d1);
                model::lemma_num_offset_step(ctrl, d1 + 1);
                model::lemma_num_offset_step(ctrl, d1 + 2);
                lemma_fundamental_div_mod_converse(d1 + 1, 4, tail_quad as int, 1);
                lemma_fundamental_div_mod_converse(d1 + 2, 4, tail_quad as int, 2);
                model::lemma_num_offset_mono(ctrl, d1 + leftover, self.total_count as int);
                model::lemma_num_offset_mono(ctrl, d1, d1 + leftover);
            }
            let c = self.control_bytes[tail_quad];
            let (l0, l1, l2, _l3) = tables::decode_length_per_num(c);
            let n0 = decode_num_scalar(l0, self.encoded_nums, self.bytes_read);
            output[done_quads] = n0;
            self.bytes_read = self.bytes_read + l0;
            self.nums_decoded = self.nums_decoded + 1;
            if leftover >= 2 {
                let v = decode_num_scalar(l1, self.encoded_nums, self.bytes_read);
                output[done_quads + 1] = v;
                self.bytes_read = self.bytes_read + l1;
                self.nums_decoded = self.nums_decoded + 1;
            }
            if leftover >= 3 {
                let v = decode_num_scalar(l2, self.encoded_nums, self.bytes_read);
                output[done_quads + 2] = v;
                self.bytes_read = self.bytes_read + l2;
                self.nums_decoded = self.nums_decoded + 1;
            }
        }
    }

    /// Fill `output[0..remaining]` with everything not yet decoded, leaving
    /// the cursor exhausted. Returns how many numbers were written.
    pub fn decode_slice<D: Decoder + WriteQuadToSlice>(&mut self, output: &mut Vec<u32>) -> (n:
        usize)
        requires
            old(self).wf(),
            old(self).count() - old(self).done() <= old(output)@.len(),
        ensures
            final(self).wf(),
            final(self).ctrl() == old(self).ctrl(),
            final(self).vals() == old(self).vals(),
            final(self).count() == old(self).count(),
            final(self).done() == old(self).count(),
            n == old(self).count() - old(self).done(),
            final(output)@.len() == old(output)@.len(),
            forall|i: int|
                0 <= i < n ==> final(output)@[i] == old(self).stream()[old(self).done() + i],
            forall|i: int|
                n <= i < old(output)@.len() ==> final(output)@[i] == old(output)@[i],
    {
        let remaining = self.total_count - self.nums_decoded;
        self.decode_into::<D>(output, remaining);
        remaining
    }

    /// Feed the next numbers to `sink`, at most `max` of them: whole quads
    /// only, except that the trailing partial quad is delivered when the rest
    /// fits under `max`. Returns how many numbers were delivered; the cursor
    /// can resume from there.
    pub fn decode_sink<D: Decoder, S: DecodeQuadSink<D>>(&mut self, sink: &mut S, max: usize) -> (n:
        usize)
        requires
            old(self).wf(),
            old(sink).inv(),
            sink_delivery(old(self).count() - old(self).done(), max as int) <= old(
                sink,
            ).capacity(),
        ensures
            final(self).wf(),
            final(self).ctrl() == old(self).ctrl(),
            final(self).vals() == old(self).vals(),
            final(self).count() == old(self).count(),
            n == sink_delivery(old(self).count() - old(self).done(), max as int),
            final(self).done() == old(self).done() + n,
            final(sink).inv(),
            final(sink).capacity() == old(sink).capacity(),
            final(sink).received() == old(sink).received() + old(self).stream().subrange(
                old(self).done(),
                old(self).done() + n,
            ),
    {
        let remaining = self.total_count - self.nums_decoded;
        let todo = if max >= remaining {
            remaining
        } else {
            4 * (max / 4)
        };
        proof {
            if max < remaining {
                lemma_fundamental_div_mod(max as int, 4);
                lemma_fundamental_div_mod_converse(
                    4 * (max as int / 4),
                    4,
                    max as int / 4,
                    0,
                );
            }
        }
        let ghost d0 = self.nums_decoded as int;
        let ghost seg = old(self).stream().subrange(d0, d0 + todo);
        let mut tmp: Vec<u32> = vec![0u32; todo];
        self.decode_into::<D>(&mut tmp, todo);
        let mut i: usize = 0;
        while i < todo
            invariant
                0 <= i <= todo,
                todo <= old(sink).capacity(),
                tmp@.len() == todo,
                seg.len() == todo,
                forall|j: int| 0 <= j < todo ==> tmp@[j] == seg[j],
                sink.inv(),
                sink.capacity() == old(sink).capacity(),
                sink.received() == old(sink).received() + seg.take(i as int),
            decreases todo - i,
        {
            let v = tmp[i];
            proof {
                assert(seg.take(i + 1) =~= seg.take(i as int).push(seg[i as int]));
            }
            sink.on_number(v, i);
            proof {
                assert(old(sink).received() + seg.take(i as int).push(seg[i as int]) =~= (old(
                    sink,
                ).received() + seg.take(i as int)).push(seg[i as int]));
            }
            i = i + 1;
        }
        proof {
            assert(seg.take(todo as int) =~= seg);
        }
        todo
    }
}

} // verus!
