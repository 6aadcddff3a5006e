//! The transform engine: batches run serially or on rayon's worker pool,
//! the recursive dispatch over head and tail, and the public entry points.
use crate::block::{batched, crypt, lemma_batched_is_crypt, lemma_splice_extend};
use crate::cipher::Ice;
use crate::dispatch::{
    batch_size, dispatched, head_len, lemma_dispatched_is_crypt,
    AUTO_PAR_THRESHOLD, MAX_BLOCKS_PER_BATCH_PARALLEL, MAX_BLOCKS_PER_BATCH_SERIAL,
};
use crate::keysched::splice;
use rayon::iter::ParallelIterator;
use rayon::slice::ParallelSliceMut;
use vstd::arithmetic::div_mod::lemma_fundamental_div_mod;
use vstd::prelude::*;

verus! {

/// Relies on `rayon::current_num_threads`: the number of threads of the
/// current worker pool. Nothing is assumed of the value.
#[verifier::external_body]
fn worker_threads() -> usize {
    rayon::current_num_threads()
}

/// A length that is a whole number of batches is `8 * b` times their count.
proof fn lemma_whole_batches(len: nat, b: nat)
    requires
        b >= 1,
        len % (8 * b) == 0,
    ensures
        len == 8 * b * (len / (8 * b)),
{
    lemma_fundamental_div_mod(len as int, (8 * b) as int);
}

impl Ice {
    /// Relies on rayon's `par_chunks_exact_mut(chunk_bytes)` and `for_each`:
    /// the slice is cut front to back into disjoint chunks of exactly
    /// `chunk_bytes` bytes, the closure runs once on each, the call returns
    /// when all have run, and bytes after the last whole chunk are not
    /// touched. It panics on a chunk size of zero, which `b >= 1` excludes.
    #[verifier::external_body]
    fn process_par_chunks(&self, data: &mut [u8], chunk_bytes: usize, b: usize, decrypt: bool)
        requires
            self.wf(),
            b >= 1,
            chunk_bytes == 8 * b,
        ensures
            final(data)@ == batched(self@, old(data)@, b as nat, decrypt),
    {
        data.par_chunks_exact_mut(chunk_bytes).for_each(|c| self.process_chunk(c, 0, b, decrypt));
    }

    /// Transforms `count` batches of `b` blocks from byte `start` on, one
    /// after the other.
    fn process_serial(&self, data: &mut [u8], start: usize, count: usize, b: usize, decrypt: bool)
        requires
            self.wf(),
            b >= 1,
            start + 8 * b * count <= old(data)@.len(),
        ensures
            final(data)@ == splice(
                old(data)@,
                start as int,
                batched(self@, old(data)@.subrange(start as int, start + 8 * b * count), b as nat, decrypt),
            ),
    {
        let ghost d0 = data@;
        let ghost ks = self@;
        let ghost end = start + 8 * b * count;
        let mut pos: usize = start;
        let mut c: usize = 0;
        assert(d0.subrange(start as int, start as int).len() == 0);
        assert(data@ =~= splice(d0, start as int, crypt(ks, d0.subrange(start as int, start as int), decrypt)));
        while c < count
            invariant
                self.wf(),
                ks == self@,
                b >= 1,
                end == start + 8 * b * count,
                end <= d0.len(),
                d0.len() == data.len(),
                c <= count,
                pos == start + 8 * b * c,
                (pos - start) % 8 == 0,
                data@ == splice(d0, start as int, crypt(ks, d0.subrange(start as int, pos as int), decrypt)),
            decreases count - c,
        {
            proof {
                assert(8 * b * c + 8 * b <= 8 * b * count) by (nonlinear_arith)
                    requires
                        c < count,
                ;
                assert(8 * b * (c + 1) == 8 * b * c + 8 * b) by (nonlinear_arith);
            }
            let ghost before = data@;
            assert(before.subrange(pos as int, pos + 8 * b) =~= d0.subrange(pos as int, pos + 8 * b));
            self.process_chunk(data, pos, b, decrypt);
            proof {
                lemma_splice_extend(ks, d0, start as int, pos as int, pos + 8 * b, decrypt);
            }
            pos = pos + 8 * b;
            c += 1;
        }
        proof {
            lemma_batched_is_crypt(ks, d0.subrange(start as int, end), b as nat, count as nat, decrypt);
        }
    }

    /// The serial dispatcher: picks the batch width for what is left,
    /// transforms the head in batches of that width, and goes on with the
    /// tail until the buffer is done.
    fn dispatch_serial(&self, data: &mut [u8], decrypt: bool)
        requires
            self.wf(),
            old(data)@.len() % 8 == 0,
        ensures
            final(data)@ == dispatched(self@, old(data)@, MAX_BLOCKS_PER_BATCH_SERIAL as nat, decrypt),
    {
        let ghost d0 = data@;
        let ghost ks = self@;
        let ghost cap = MAX_BLOCKS_PER_BATCH_SERIAL as nat;
        let len = data.len();
        let mut start: usize = 0;
        assert(data@.subrange(0, 0) + d0.subrange(0, len as int) =~= d0);
        while start < len
            invariant
                self.wf(),
                ks == self@,
                cap == MAX_BLOCKS_PER_BATCH_SERIAL as nat,
                len == d0.len(),
                data@.len() == len,
                start <= len,
                start % 8 == 0,
                len % 8 == 0,
                data@.subrange(start as int, len as int) == d0.subrange(start as int, len as int),
                data@.subrange(0, start as int) + dispatched(ks, d0.subrange(start as int, len as int), cap, decrypt)
                    == dispatched(ks, d0, cap, decrypt),
            decreases len - start,
        {
            let ghost rest = d0.subrange(start as int, len as int);
            let ghost before = data@;
            let blocks = (len - start) / 8;
            let b = batch_size(blocks, MAX_BLOCKS_PER_BATCH_SERIAL);
            proof {
                assert(cap == 512);
                assert(rest.len() == len - start && blocks == rest.len() / 8);
                crate::dispatch::lemma_head(rest.len(), cap);
            }
            let count = blocks / b;
            let head = count * b * 8;
            assert(head == head_len(rest.len(), b as nat));
            assert(8 * b * count == head) by (nonlinear_arith)
                requires
                    head == count * b * 8,
            ;
            self.process_serial(data, start, count, b, decrypt);
            proof {
                let h = head as int;
                crate::block::lemma_batched_len(ks, rest.subrange(0, h), b as nat, decrypt);
                assert(before.subrange(start as int, start + h) =~= rest.subrange(0, h));
                assert(rest.subrange(h, rest.len() as int) =~= d0.subrange(start + h, len as int));
                assert(dispatched(ks, rest, cap, decrypt) == batched(ks, rest.subrange(0, h), b as nat, decrypt)
                    + dispatched(ks, rest.subrange(h, rest.len() as int), cap, decrypt));
                assert(data@.subrange(0, start + h) =~= before.subrange(0, start as int) + batched(
                    ks,
                    rest.subrange(0, h),
                    b as nat,
                    decrypt,
                ));
                assert(data@.subrange(start + h, len as int) =~= d0.subrange(start + h, len as int));
            }
            start = start + head;
        }
        assert(data@.subrange(0, len as int) =~= data@);
        assert(dispatched(ks, d0.subrange(len as int, len as int), cap, decrypt) =~= Seq::<u8>::empty());
    }

    /// The parallel dispatcher: the head goes to the worker pool in batches
    /// of the chosen width, then the tail is dispatched the same way.
    fn dispatch_par(&self, data: &mut [u8], decrypt: bool)
        requires
            self.wf(),
            old(data)@.len() % 8 == 0,
        ensures
            final(data)@ == dispatched(self@, old(data)@, MAX_BLOCKS_PER_BATCH_PARALLEL as nat, decrypt),
        decreases old(data)@.len(),
    {
        let ghost d0 = data@;
        let ghost ks = self@;
        let ghost cap = MAX_BLOCKS_PER_BATCH_PARALLEL as nat;
        let len = data.len();
        if len < 8 {
            return;
        }
        let blocks = len / 8;
        let b = batch_size(blocks, MAX_BLOCKS_PER_BATCH_PARALLEL);
        proof {
            crate::dispatch::lemma_head(len as nat, cap);
        }
        let count = blocks / b;
        let head_bytes = count * b * 8;
        let (head, tail) = data.split_at_mut(head_bytes);
        proof {
            crate::block::lemma_batched_len(ks, d0.subrange(0, head_bytes as int), b as nat, decrypt);
        }
        self.process_par_chunks(head, b * 8, b, decrypt);
        self.dispatch_par(tail, decrypt);
    }

    /// Encrypts `data` in place on the calling thread, with tail handling.
    pub fn encrypt(&self, data: &mut [u8])
        requires
            self.wf(),
            old(data)@.len() % 8 == 0,
            old(data)@.len() >= 8,
        ensures
            final(data)@ == dispatched(self@, old(data)@, MAX_BLOCKS_PER_BATCH_SERIAL as nat, false),
            final(data)@ == crypt(self@, old(data)@, false),
    {
        let ghost d0 = data@;
        self.dispatch_serial(data, false);
        proof {
            lemma_dispatched_is_crypt(self@, d0, MAX_BLOCKS_PER_BATCH_SERIAL as nat, false);
        }
    }

    /// Decrypts `data` in place on the calling thread, with tail handling.
    pub fn decrypt(&self, data: &mut [u8])
        requires
            self.wf(),
            old(data)@.len() % 8 == 0,
            old(data)@.len() >= 8,
        ensures
            final(data)@ == dispatched(self@, old(data)@, MAX_BLOCKS_PER_BATCH_SERIAL as nat, true),
            final(data)@ == crypt(self@, old(data)@, true),
    {
        let ghost d0 = data@;
        self.dispatch_serial(data, true);
        proof {
            lemma_dispatched_is_crypt(self@, d0, MAX_BLOCKS_PER_BATCH_SERIAL as nat, true);
        }
    }

    /// Encrypts `data` in place on the worker pool, with tail handling.
    pub fn encrypt_par(&self, data: &mut [u8])
        requires
            self.wf(),
            old(data)@.len() % 8 == 0,
            old(data)@.len() >= 8,
        ensures
            final(data)@ == dispatched(self@, old(data)@, MAX_BLOCKS_PER_BATCH_PARALLEL as nat, false),
            final(data)@ == crypt(self@, old(data)@, false),
    {
        let ghost d0 = data@;
        self.dispatch_par(data, false);
        proof {
            lemma_dispatched_is_crypt(self@, d0, MAX_BLOCKS_PER_BATCH_PARALLEL as nat, false);
        }
    }

    /// Decrypts `data` in place on the worker pool, with tail handling.
    pub fn decrypt_par(&self, data: &mut [u8])
        requires
            self.wf(),
            old(data)@.len() % 8 == 0,
            old(data)@.len() >= 8,
        ensures
            final(data)@ == dispatched(self@, old(data)@, MAX_BLOCKS_PER_BATCH_PARALLEL as nat, true),
            final(data)@ == crypt(self@, old(data)@, true),
    {
        let ghost d0 = data@;
        self.dispatch_par(data, true);
        proof {
            lemma_dispatched_is_crypt(self@, d0, MAX_BLOCKS_PER_BATCH_PARALLEL as nat, true);
        }
    }

    /// Encrypts `data` in place: on the worker pool from 32 KiB on when it
    /// has at least two threads, else on the calling thread.
    pub fn encrypt_auto(&self, data: &mut [u8])
        requires
            self.wf(),
            old(data)@.len() % 8 == 0,
            old(data)@.len() >= 8,
        ensures
            final(data)@ == crypt(self@, old(data)@, false),
    {
        let ghost d0 = data@;
        proof {
            lemma_dispatched_is_crypt(self@, d0, MAX_BLOCKS_PER_BATCH_SERIAL as nat, false);
            lemma_dispatched_is_crypt(self@, d0, MAX_BLOCKS_PER_BATCH_PARALLEL as nat, false);
        }
        if data.len() >= AUTO_PAR_THRESHOLD && worker_threads() >= 2 {
            self.dispatch_par(data, false);
        } else {
            self.dispatch_serial(data, false);
        }
    }

    /// Decrypts `data` in place: on the worker pool from 32 KiB on when it
    /// has at least two threads, else on the calling thread.
    pub fn decrypt_auto(&self, data: &mut [u8])
        requires
            self.wf(),
            old(data)@.len() % 8 == 0,
            old(data)@.len() >= 8,
        ensures
            final(data)@ == crypt(self@, old(data)@, true),
    {
        let ghost d0 = data@;
        proof {
            lemma_dispatched_is_crypt(self@, d0, MAX_BLOCKS_PER_BATCH_SERIAL as nat, true);
            lemma_dispatched_is_crypt(self@, d0, MAX_BLOCKS_PER_BATCH_PARALLEL as nat, true);
        }
        if data.len() >= AUTO_PAR_THRESHOLD && worker_threads() >= 2 {
            self.dispatch_par(data, true);
        } else {
            self.dispatch_serial(data, true);
        }
    }

    /// Encrypts `data` in place in batches of `B` blocks, with no dispatch
    /// and no tail: the length is a whole number of batches.
    pub fn encrypt_chunks<const B: usize>(&self, data: &mut [u8])
        requires
            self.wf(),
            B >= 1,
            old(data)@.len() >= 8 * B as nat,
            old(data)@.len() % (8 * B as nat) == 0,
        ensures
            final(data)@ == batched(self@, old(data)@, B as nat, false),
            final(data)@ == crypt(self@, old(data)@, false),
    {
        let ghost d0 = data@;
        let len = data.len();
        proof {
            lemma_whole_batches(d0.len(), B as nat);
            lemma_batched_is_crypt(self@, d0, B as nat, d0.len() / (8 * B as nat), false);
        }
        self.process_serial(data, 0, len / (8 * B), B, false);
        proof {
            assert(d0.subrange(0, d0.len() as int) =~= d0);
            crate::block::lemma_batched_len(self@, d0, B as nat, false);
            assert(data@ =~= batched(self@, d0, B as nat, false));
        }
    }

    /// Encrypts `data` in place in batches of `B` blocks on the worker pool,
    /// with no dispatch and no tail.
    pub fn encrypt_chunks_par<const B: usize>(&self, data: &mut [u8])
        requires
            self.wf(),
            B >= 1,
            old(data)@.len() >= 8 * B as nat,
            old(data)@.len() % (8 * B as nat) == 0,
        ensures
            final(data)@ == batched(self@, old(data)@, B as nat, false),
            final(data)@ == crypt(self@, old(data)@, false),
    {
        let ghost d0 = data@;
        let len = data.len();
        proof {
            lemma_whole_batches(d0.len(), B as nat);
            lemma_batched_is_crypt(self@, d0, B as nat, d0.len() / (8 * B as nat), false);
        }
        self.process_par_chunks(data, 8 * B, B, false);
        proof {
            assert(d0.subrange(0, d0.len() as int) =~= d0);
            crate::block::lemma_batched_len(self@, d0, B as nat, false);
            assert(data@ =~= batched(self@, d0, B as nat, false));
        }
    }

    /// Decrypts `data` in place in batches of `B` blocks, with no dispatch
    /// and no tail: the length is a whole number of batches.
    pub fn decrypt_chunks<const B: usize>(&self, data: &mut [u8])
        requires
            self.wf(),
            B >= 1,
            old(data)@.len() >= 8 * B as nat,
            old(data)@.len() % (8 * B as nat) == 0,
        ensures
            final(data)@ == batched(self@, old(data)@, B as nat, true),
            final(data)@ == crypt(self@, old(data)@, true),
    {
        let ghost d0 = data@;
        let len = data.len();
        proof {
            lemma_whole_batches(d0.len(), B as nat);
            lemma_batched_is_crypt(self@, d0, B as nat, d0.len() / (8 * B as nat), true);
        }
        self.process_serial(data, 0, len / (8 * B), B, true);
        proof {
            assert(d0.subrange(0, d0.len() as int) =~= d0);
            crate::block::lemma_batched_len(self@, d0, B as nat, true);
            assert(data@ =~= batched(self@, d0, B as nat, true));
        }
    }

    /// Decrypts `data` in place in batches of `B` blocks on the worker pool,
    /// with no dispatch and no tail.
    pub fn decrypt_chunks_par<const B: usize>(&self, data: &mut [u8])
        requires
            self.wf(),
            B >= 1,
            old(data)@.len() >= 8 * B as nat,
            old(data)@.len() % (8 * B as nat) == 0,
        ensures
            final(data)@ == batched(self@, old(data)@, B as nat, true),
            final(data)@ == crypt(self@, old(data)@, true),
    {
        let ghost d0 = data@;
        let len = data.len();
        proof {
            lemma_whole_batches(d0.len(), B as nat);
            lemma_batched_is_crypt(self@, d0, B as nat, d0.len() / (8 * B as nat), true);
        }
        self.process_par_chunks(data, 8 * B, B, true);
        proof {
            assert(d0.subrange(0, d0.len() as int) =~= d0);
            crate::block::lemma_batched_len(self@, d0, B as nat, true);
            assert(data@ =~= batched(self@, d0, B as nat, true));
        }
    }
}

} // verus!
