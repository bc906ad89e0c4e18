//! Encoding as a stream: bytes are fed one at a time and symbols come out a
//! block at a time, so memory stays bounded by one block.
use vstd::prelude::*;
use crate::alphabet::{spells, PREFIX, SUFFIX};
use crate::block::{encode_block, encode_group, lemma_group_round_trip, BLOCK_BYTES, BLOCK_DIGITS};
use crate::codec::{encode_digits, is_encoding, payload, push_symbols, EncodeConfig};

verus! {

/// Encoding of one input fed byte by byte.
pub struct Encoder {
    add_wrapper: bool,
    started: bool,
    pending: Vec<u8>,
    fed: Ghost<Seq<u8>>,
    handed_out: Ghost<Seq<char>>,
}

/// Digits of bytes split at a block boundary are the digits of each part.
pub proof fn lemma_encode_digits_concat(a: Seq<u8>, b: Seq<u8>)
    requires
        a.len() % (BLOCK_BYTES as nat) == 0,
    ensures
        encode_digits(a + b) == encode_digits(a) + encode_digits(b),
    decreases a.len(),
{
    if a.len() == 0 {
        assert(a + b =~= b);
        assert(Seq::<u8>::empty() + encode_digits(b) =~= encode_digits(b));
    } else if b.len() == 0 {
        assert(a + b =~= a);
        assert(encode_digits(a) + Seq::<u8>::empty() =~= encode_digits(a));
    } else {
        let k = BLOCK_BYTES as int;
        lemma_encode_digits_concat(a.skip(k), b);
        assert((a + b).take(k) =~= a.take(k));
        assert((a + b).skip(k) =~= a.skip(k) + b);
        if a.len() == k {
            assert(a.take(k) =~= a);
            assert(a.skip(k) =~= Seq::<u8>::empty());
            assert(encode_digits(a.skip(k)) =~= Seq::<u8>::empty());
            assert(encode_group(a) + Seq::<u8>::empty() =~= encode_group(a));
        }
        assert(encode_group(a.take(k)) + (encode_digits(a.skip(k)) + encode_digits(b))
            =~= (encode_group(a.take(k)) + encode_digits(a.skip(k))) + encode_digits(b));
    }
}

impl Encoder {
    /// Every byte fed so far.
    pub closed spec fn consumed(&self) -> Seq<u8> {
        self.fed@
    }

    /// Every symbol handed out so far.
    pub closed spec fn emitted(&self) -> Seq<char> {
        self.handed_out@
    }

    /// Number of leading markers in the output: one when wrapped.
    pub closed spec fn lead(&self) -> int {
        if self.add_wrapper { 1 } else { 0 }
    }

    /// The bytes fed so far that fill whole blocks.
    pub closed spec fn full(&self) -> Seq<u8> {
        self.consumed().take(self.consumed().len() - self.pending@.len())
    }

    /// The encoder is consistent: what it handed out is the encoding of the
    /// whole blocks fed so far, and the rest waits in one partial block.
    pub closed spec fn wf(&self) -> bool {
        &&& self.pending@.len() < BLOCK_BYTES
        &&& self.pending@.len() <= self.consumed().len()
        &&& self.full().len() % (BLOCK_BYTES as nat) == 0
        &&& self.consumed().skip(self.full().len() as int) == self.pending@
        &&& !self.started ==> self.emitted().len() == 0 && self.consumed().len() == 0
        &&& self.started ==> {
            &&& self.emitted().len() == self.lead() + encode_digits(self.full()).len()
            &&& self.add_wrapper ==> self.emitted()[0] == PREFIX
            &&& spells(self.emitted().skip(self.lead()), encode_digits(self.full()))
        }
    }

    /// How many fed bytes wait in the partial block.
    pub closed spec fn pending_len(&self) -> nat {
        self.pending@.len()
    }

    /// Whether the encoder has handed out its opening, if any.
    pub closed spec fn is_started(&self) -> bool {
        self.started
    }

    /// The wrapper setting the encoder was made with.
    pub closed spec fn wrapped(&self) -> bool {
        self.add_wrapper
    }

    /// An encoder that has been fed nothing.
    pub fn new(config: EncodeConfig) -> (r: Encoder)
        ensures
            r.wf(),
            r.wrapped() == config.add_wrapper,
            r.consumed() == Seq::<u8>::empty(),
            r.emitted() == Seq::<char>::empty(),
            r.pending_len() == 0,
            !r.is_started(),
    {
        let r = Encoder {
            add_wrapper: config.add_wrapper,
            started: false,
            pending: Vec::new(),
            fed: Ghost(Seq::empty()),
            handed_out: Ghost(Seq::empty()),
        };
        proof {
            assert(r.consumed().skip(0) =~= r.pending@);
        }
        r
    }

    /// Opens the output with the prefix marker when wrapped.
    fn start(&mut self) -> (r: Vec<char>)
        requires
            old(self).wf(),
            !old(self).started,
        ensures
            final(self).wf(),
            final(self).started,
            final(self).add_wrapper == old(self).add_wrapper,
            final(self).consumed() == old(self).consumed(),
            final(self).pending@ == old(self).pending@,
            final(self).emitted() == old(self).emitted() + r@,
            r@.len() == (if old(self).add_wrapper { 1int } else { 0int }),
    {
        let mut out: Vec<char> = Vec::new();
        if self.add_wrapper {
            out.push(PREFIX);
        }
        self.started = true;
        self.handed_out = Ghost(self.emitted() + out@);
        proof {
            assert(self.full() =~= Seq::<u8>::empty());
            assert(encode_digits(self.full()) =~= Seq::<u8>::empty());
            assert(self.emitted().skip(self.lead()) =~= Seq::<char>::empty());
        }
        out
    }

    /// Feeds one byte; the symbols of a block come out once it is full.
    pub fn push(&mut self, byte: u8) -> (r: Vec<char>)
        requires
            old(self).wf(),
        ensures
            final(self).wf(),
            final(self).wrapped() == old(self).wrapped(),
            final(self).consumed() == old(self).consumed().push(byte),
            final(self).emitted() == old(self).emitted() + r@,
            final(self).is_started(),
            final(self).pending_len() < BLOCK_BYTES,
            final(self).pending_len() == (old(self).pending_len() + 1) % (BLOCK_BYTES as nat),
            r@.len() == (if !old(self).is_started() && old(self).wrapped() { 1int } else { 0int })
                + (if old(self).pending_len() + 1 == BLOCK_BYTES { BLOCK_DIGITS as int } else { 0int }),
    {
        let ghost em_old = self.emitted();
        let mut out: Vec<char> = if !self.started { self.start() } else { Vec::new() };
        let ghost full0 = self.full();
        let ghost e1 = self.emitted();
        proof {
            assert(e1 =~= em_old + out@);
        }
        self.pending.push(byte);
        self.fed = Ghost(self.consumed().push(byte));
        proof {
            assert(self.consumed().take(self.consumed().len() - self.pending@.len()) =~= full0);
            assert(self.consumed().skip(full0.len() as int) =~= self.pending@);
        }
        if self.pending.len() == BLOCK_BYTES {
            let digits = encode_block(self.pending.as_slice());
            proof {
                lemma_group_round_trip(self.pending@);
            }
            let ghost before = out@;
            push_symbols(&mut out, &digits);
            let ghost block = self.pending@;
            self.pending = Vec::new();
            self.handed_out = Ghost(em_old + out@);
            proof {
                let l = self.lead();
                let fresh = out@.skip(before.len() as int);
                assert(out@ =~= before + fresh);
                assert(self.emitted() =~= e1 + fresh);
                assert(self.full() =~= full0 + block);
                assert(self.consumed().skip(self.full().len() as int) =~= Seq::<u8>::empty());
                lemma_encode_digits_concat(full0, block);
                assert(block.take(BLOCK_BYTES as int) =~= block);
                assert(encode_digits(block) == encode_group(block));
                assert(self.emitted().skip(l) =~= e1.skip(l) + fresh);
                crate::codec::lemma_spells_concat(e1.skip(l), encode_digits(full0), fresh, digits@);
                if self.add_wrapper {
                    assert(self.emitted()[0] == e1[0]);
                }
            }
        }
        out
    }

    /// Ends the input: the symbols of the last partial block, and the suffix
    /// marker when wrapped. All that the encoder handed out is then the
    /// encoding of all the bytes fed.
    pub fn finish(self) -> (r: Vec<char>)
        requires
            self.wf(),
        ensures
            is_encoding(self.emitted() + r@, self.consumed(), self.wrapped()),
    {
        let mut me = self;
        let mut out: Vec<char> = if !me.started { me.start() } else { Vec::new() };
        let ghost full0 = me.full();
        let ghost e1 = me.emitted();
        let ghost l = me.lead();
        proof {
            assert(e1 =~= self.emitted() + out@);
            assert(me.consumed() =~= full0 + me.pending@);
            lemma_encode_digits_concat(full0, me.pending@);
        }
        if me.pending.len() > 0 {
            let digits = encode_block(me.pending.as_slice());
            proof {
                lemma_group_round_trip(me.pending@);
                assert(encode_digits(me.pending@) == encode_group(me.pending@));
            }
            let ghost before = out@;
            push_symbols(&mut out, &digits);
            proof {
                let fresh = out@.skip(before.len() as int);
                assert(out@ =~= before + fresh);
                assert(self.emitted() + out@ =~= e1 + fresh);
                assert((e1 + fresh).skip(l) =~= e1.skip(l) + fresh);
                crate::codec::lemma_spells_concat(e1.skip(l), encode_digits(full0), fresh, digits@);
            }
        } else {
            proof {
                assert(me.pending@ =~= Seq::<u8>::empty());
                assert(encode_digits(me.pending@) =~= Seq::<u8>::empty());
                assert(encode_digits(full0) + Seq::<u8>::empty() =~= encode_digits(full0));
                assert(self.emitted() + out@ =~= e1);
            }
        }
        let ghost body = self.emitted() + out@;
        proof {
            assert(spells(body.skip(l), encode_digits(me.consumed())));
            assert(body.len() == l + encode_digits(me.consumed()).len());
            if me.add_wrapper {
                assert(body[0] == e1[0]);
            }
        }
        if me.add_wrapper {
            out.push(SUFFIX);
            proof {
                let s = self.emitted() + out@;
                assert(s =~= body.push(SUFFIX));
                assert(payload(s, true) =~= body.skip(1));
            }
        } else {
            proof {
                assert(body.skip(0) =~= body);
            }
        }
        out
    }
}

} // verus!
