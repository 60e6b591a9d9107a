use vstd::prelude::*;

verus! {

/// The block padding schemes on offer.
#[derive(Debug, Clone, Copy, PartialEq, Eq, Structural)]
#[allow(non_camel_case_types)]
pub enum Paddings {
    ANSI_X9_23,
    ISO_10126,
    PKCS7,
    ISO_IEC_7816_4,
}

/// Number of bytes a scheme appends: always between 1 and `block_size`,
/// bringing the length to the next multiple of `block_size`.
pub open spec fn pad_len(len: nat, block_size: nat) -> nat {
    (block_size - len % block_size) as nat
}

/// `count` copies of `b`.
pub open spec fn repeat(b: u8, count: nat) -> Seq<u8> {
    Seq::new(count, |i: int| b)
}

/// PKCS#7: `p` bytes of value `p`.
pub open spec fn pkcs7_padded(m: Seq<u8>, block_size: nat) -> Seq<u8> {
    m + repeat(pad_len(m.len(), block_size) as u8, pad_len(m.len(), block_size))
}

/// ANSI X9.23: `p - 1` zero bytes, then the byte `p`.
pub open spec fn ansi_padded(m: Seq<u8>, block_size: nat) -> Seq<u8> {
    let p = pad_len(m.len(), block_size);
    m + repeat(0, (p - 1) as nat) + seq![p as u8]
}

/// ISO/IEC 7816-4: the byte `0x80`, then `p - 1` zero bytes.
pub open spec fn iso7816_padded(m: Seq<u8>, block_size: nat) -> Seq<u8> {
    let p = pad_len(m.len(), block_size);
    m + seq![0x80u8] + repeat(0, (p - 1) as nat)
}

/// The index of the last `0x80` byte of `s`, or `-1`.
pub open spec fn last_marker(s: Seq<u8>) -> int
    decreases s.len(),
{
    if s.len() == 0 {
        -1
    } else if s.last() == 0x80 {
        s.len() - 1
    } else {
        last_marker(s.drop_last())
    }
}

/// The bytes of `s` from `from` to its end all equal `b`.
pub open spec fn all_equal_from(s: Seq<u8>, from: int, b: u8) -> bool {
    forall|i: int| from <= i < s.len() ==> #[trigger] s[i] == b
}

/// A block padding scheme: `pad` appends between 1 and `block_size` bytes,
/// `unpad` strips them again.
pub trait Pad {
    /// The inputs `unpad` accepts.
    spec fn unpad_accepts(padded_message: Seq<u8>, consistency_checking: bool) -> bool;

    /// The bytes `unpad` keeps.
    spec fn unpadded(padded_message: Seq<u8>) -> Seq<u8>;

    fn pad(message: Vec<u8>, block_size: usize) -> (r: Vec<u8>)
        requires
            1 <= block_size <= 255,
            message@.len() + block_size <= usize::MAX,
        ensures
            r@.len() == message@.len() + pad_len(message@.len() as nat, block_size as nat),
            (r@.len() as int) % (block_size as int) == 0,
            r@.subrange(0, message@.len() as int) == message@,
    ;

    fn unpad(padded_message: Vec<u8>, consistency_checking: bool) -> (r: Vec<u8>)
        requires
            Self::unpad_accepts(padded_message@, consistency_checking),
        ensures
            r@ == Self::unpadded(padded_message@),
    ;
}

proof fn lemma_pad_len(len: nat, block_size: nat)
    requires
        block_size >= 1,
    ensures
        1 <= pad_len(len, block_size) <= block_size,
        ((len + pad_len(len, block_size)) as int) % (block_size as int) == 0,
{
    let r = len % block_size;
    vstd::arithmetic::div_mod::lemma_fundamental_div_mod(len as int, block_size as int);
    vstd::arithmetic::div_mod::lemma_mod_bound(len as int, block_size as int);
    let d = (len / block_size) as int;
    assert(len + pad_len(len, block_size) == block_size * (d + 1)) by (nonlinear_arith)
        requires
            len as int == block_size * d + r,
            pad_len(len, block_size) == block_size - r,
    ;
    vstd::arithmetic::div_mod::lemma_mod_multiples_vanish(d + 1, 0, block_size as int);
    vstd::arithmetic::div_mod::lemma_small_mod(0, block_size);
}

/// `message` followed by `count` copies of `b`.
fn append_repeated(message: &mut Vec<u8>, b: u8, count: usize)
    requires
        old(message)@.len() + count <= usize::MAX,
    ensures
        final(message)@ == old(message)@ + repeat(b, count as nat),
{
    let ghost start = message@;
    let mut i: usize = 0;
    while i < count
        invariant
            i <= count,
            start.len() + count <= usize::MAX,
            message@ == start + repeat(b, i as nat),
        decreases count - i,
    {
        message.push(b);
        i = i + 1;
        assert(message@ =~= start + repeat(b, i as nat));
    }
}

/// The first `len` bytes of `v`.
fn prefix(v: &Vec<u8>, len: usize) -> (r: Vec<u8>)
    requires
        len <= v@.len(),
    ensures
        r@ == v@.subrange(0, len as int),
{
    let mut r: Vec<u8> = Vec::new();
    let mut i: usize = 0;
    while i < len
        invariant
            i <= len <= v@.len(),
            r@ == v@.subrange(0, i as int),
        decreases len - i,
    {
        r.push(v[i]);
        i = i + 1;
        assert(r@ =~= v@.subrange(0, i as int));
    }
    r
}

/// Relies on rand::random, a uniformly drawn byte from the thread-local generator.
#[verifier::external_body]
pub(crate) fn random_byte() -> (r: u8) {
    rand::random::<u8>()
}

/// ANSI X9.23 padding.
#[allow(non_camel_case_types)]
pub struct ANSI_X9_23 {}

impl Pad for ANSI_X9_23 {
    open spec fn unpad_accepts(padded_message: Seq<u8>, consistency_checking: bool) -> bool {
        let len = padded_message.len();
        &&& len >= 1
        &&& padded_message.last() as int <= len
        &&& consistency_checking ==> forall|i: int|
            len - padded_message.last() <= i < len - 1 ==> #[trigger] padded_message[i] == 0
    }

    open spec fn unpadded(padded_message: Seq<u8>) -> Seq<u8> {
        padded_message.subrange(0, padded_message.len() - padded_message.last())
    }

    fn pad(message: Vec<u8>, block_size: usize) -> (r: Vec<u8>)
        ensures
            r@ == ansi_padded(message@, block_size as nat),
    {
        proof { lemma_pad_len(message@.len() as nat, block_size as nat); }
        let p: usize = block_size - message.len() % block_size;
        let mut out = message;
        append_repeated(&mut out, 0, p - 1);
        out.push(p as u8);
        proof {
            assert(out@.subrange(0, message@.len() as int) =~= message@);
        }
        out
    }

    fn unpad(padded_message: Vec<u8>, consistency_checking: bool) -> (r: Vec<u8>) {
        let len = padded_message.len();
        let p = padded_message[len - 1] as usize;
        prefix(&padded_message, len - p)
    }
}

/// ISO 10126 padding: random filler, then the length byte.
#[allow(non_camel_case_types)]
pub struct ISO_10126 {}

impl Pad for ISO_10126 {
    open spec fn unpad_accepts(padded_message: Seq<u8>, consistency_checking: bool) -> bool {
        &&& padded_message.len() >= 1
        &&& padded_message.last() as int <= padded_message.len()
    }

    open spec fn unpadded(padded_message: Seq<u8>) -> Seq<u8> {
        padded_message.subrange(0, padded_message.len() - padded_message.last())
    }

    fn pad(message: Vec<u8>, block_size: usize) -> (r: Vec<u8>)
        ensures
            r@.last() as int == pad_len(message@.len() as nat, block_size as nat),
    {
        proof { lemma_pad_len(message@.len() as nat, block_size as nat); }
        let p: usize = block_size - message.len() % block_size;
        let mut out = message;
        let mut i: usize = 0;
        while i + 1 < p
            invariant
                i + 1 <= p,
                p <= block_size,
                message@.len() + block_size <= usize::MAX,
                out@.len() == message@.len() + i,
                out@.subrange(0, message@.len() as int) == message@,
            decreases p - i,
        {
            out.push(random_byte());
            i = i + 1;
            assert(out@.subrange(0, message@.len() as int) =~= message@);
        }
        out.push(p as u8);
        proof {
            assert(out@.subrange(0, message@.len() as int) =~= message@);
        }
        out
    }

    fn unpad(padded_message: Vec<u8>, consistency_checking: bool) -> (r: Vec<u8>) {
        let len = padded_message.len();
        let p = padded_message[len - 1] as usize;
        prefix(&padded_message, len - p)
    }
}

/// ISO/IEC 7816-4 padding: a `0x80` marker, then zeros.
#[allow(non_camel_case_types)]
pub struct ISO_IEC_7816_4 {}

impl Pad for ISO_IEC_7816_4 {
    open spec fn unpad_accepts(padded_message: Seq<u8>, consistency_checking: bool) -> bool {
        consistency_checking ==> {
            &&& last_marker(padded_message) >= 0
            &&& all_equal_from(padded_message, last_marker(padded_message) + 1, 0)
        }
    }

    open spec fn unpadded(padded_message: Seq<u8>) -> Seq<u8> {
        if last_marker(padded_message) >= 0 {
            padded_message.subrange(0, last_marker(padded_message))
        } else {
            Seq::empty()
        }
    }

    fn pad(message: Vec<u8>, block_size: usize) -> (r: Vec<u8>)
        ensures
            r@ == iso7816_padded(message@, block_size as nat),
    {
        proof { lemma_pad_len(message@.len() as nat, block_size as nat); }
        let p: usize = block_size - message.len() % block_size;
        let mut out = message;
        out.push(0x80);
        append_repeated(&mut out, 0, p - 1);
        proof {
            assert(out@.subrange(0, message@.len() as int) =~= message@);
        }
        out
    }

    fn unpad(padded_message: Vec<u8>, consistency_checking: bool) -> (r: Vec<u8>) {
        let mut n: usize = padded_message.len();
        assert(padded_message@.subrange(0, n as int) =~= padded_message@);
        while n > 0 && padded_message[n - 1] != 0x80
            invariant
                n <= padded_message@.len(),
                last_marker(padded_message@) == last_marker(padded_message@.subrange(0, n as int)),
            decreases n,
        {
            proof {
                assert(padded_message@.subrange(0, n as int).drop_last() =~= padded_message@.subrange(0, n - 1));
            }
            n = n - 1;
        }
        if n == 0 {
            proof {
                assert(padded_message@.subrange(0, 0) =~= Seq::<u8>::empty());
            }
            Vec::new()
        } else {
            prefix(&padded_message, n - 1)
        }
    }
}

/// PKCS#7 padding: every added byte holds the padding length.
pub struct PKCS7 {}

impl Pad for PKCS7 {
    open spec fn unpad_accepts(padded_message: Seq<u8>, consistency_checking: bool) -> bool {
        let len = padded_message.len();
        &&& len >= 1
        &&& padded_message.last() as int <= len
        &&& consistency_checking ==> all_equal_from(padded_message, len - padded_message.last(),
            padded_message.last())
    }

    open spec fn unpadded(padded_message: Seq<u8>) -> Seq<u8> {
        padded_message.subrange(0, padded_message.len() - padded_message.last())
    }

    fn pad(message: Vec<u8>, block_size: usize) -> (r: Vec<u8>)
        ensures
            r@ == pkcs7_padded(message@, block_size as nat),
    {
        proof { lemma_pad_len(message@.len() as nat, block_size as nat); }
        let p: usize = block_size - message.len() % block_size;
        let mut out = message;
        append_repeated(&mut out, p as u8, p);
        proof {
            assert(out@.subrange(0, message@.len() as int) =~= message@);
        }
        out
    }

    fn unpad(padded_message: Vec<u8>, consistency_checking: bool) -> (r: Vec<u8>) {
        let len = padded_message.len();
        let p = padded_message[len - 1] as usize;
        prefix(&padded_message, len - p)
    }
}

/// A padding scheme chosen at run time.
#[derive(Debug, Clone, Copy, PartialEq, Eq, Structural)]
pub struct GenericPadding {
    pub padding_method: Paddings,
}

impl GenericPadding {
    pub fn init(pad_type: Paddings) -> (r: GenericPadding)
        ensures
            r.padding_method == pad_type,
    {
        GenericPadding { padding_method: pad_type }
    }

    /// Pads `message` to a multiple of `block_size` with the chosen scheme.
    pub fn pad(&self, message: Vec<u8>, block_size: usize) -> (r: Vec<u8>)
        requires
            1 <= block_size <= 255,
            message@.len() + block_size <= usize::MAX,
        ensures
            r@.len() == message@.len() + pad_len(message@.len() as nat, block_size as nat),
            (r@.len() as int) % (block_size as int) == 0,
            r@.subrange(0, message@.len() as int) == message@,
            self.padding_method == Paddings::ANSI_X9_23 ==> r@ == ansi_padded(message@, block_size as nat),
            self.padding_method == Paddings::ISO_10126 ==> r@.last() as int
                == pad_len(message@.len() as nat, block_size as nat),
            self.padding_method == Paddings::ISO_IEC_7816_4 ==> r@ == iso7816_padded(message@, block_size as nat),
            self.padding_method == Paddings::PKCS7 ==> r@ == pkcs7_padded(message@, block_size as nat),
    {
        match self.padding_method {
            Paddings::ANSI_X9_23 => ANSI_X9_23::pad(message, block_size),
            Paddings::ISO_10126 => ISO_10126::pad(message, block_size),
            Paddings::ISO_IEC_7816_4 => ISO_IEC_7816_4::pad(message, block_size),
            Paddings::PKCS7 => PKCS7::pad(message, block_size),
        }
    }

    /// `padded` is what `pad` gives for `m` and `block_size` under the chosen
    /// scheme (for ISO 10126, up to the random filler).
    pub open spec fn pads_to(&self, m: Seq<u8>, block_size: nat, padded: Seq<u8>) -> bool {
        &&& padded.len() == m.len() + pad_len(m.len(), block_size)
        &&& (padded.len() as int) % (block_size as int) == 0
        &&& padded.subrange(0, m.len() as int) == m
        &&& self.padding_method == Paddings::ANSI_X9_23 ==> padded == ansi_padded(m, block_size)
        &&& self.padding_method == Paddings::ISO_10126 ==> padded.last() as int == pad_len(m.len(), block_size)
        &&& self.padding_method == Paddings::ISO_IEC_7816_4 ==> padded == iso7816_padded(m, block_size)
        &&& self.padding_method == Paddings::PKCS7 ==> padded == pkcs7_padded(m, block_size)
    }

    /// What `unpad` accepts under the chosen scheme.
    pub open spec fn unpad_accepts(&self, padded_message: Seq<u8>, consistency_checking: bool) -> bool {
        match self.padding_method {
            Paddings::ANSI_X9_23 => ANSI_X9_23::unpad_accepts(padded_message, consistency_checking),
            Paddings::ISO_10126 => ISO_10126::unpad_accepts(padded_message, consistency_checking),
            Paddings::ISO_IEC_7816_4 => ISO_IEC_7816_4::unpad_accepts(padded_message, consistency_checking),
            Paddings::PKCS7 => PKCS7::unpad_accepts(padded_message, consistency_checking),
        }
    }

    /// What `unpad` keeps under the chosen scheme.
    pub open spec fn unpadded(&self, padded_message: Seq<u8>) -> Seq<u8> {
        match self.padding_method {
            Paddings::ANSI_X9_23 => ANSI_X9_23::unpadded(padded_message),
            Paddings::ISO_10126 => ISO_10126::unpadded(padded_message),
            Paddings::ISO_IEC_7816_4 => ISO_IEC_7816_4::unpadded(padded_message),
            Paddings::PKCS7 => PKCS7::unpadded(padded_message),
        }
    }

    /// Strips the padding of the chosen scheme.
    pub fn unpad(&self, padded_message: Vec<u8>, consistency_checking: bool) -> (r: Vec<u8>)
        requires
            self.unpad_accepts(padded_message@, consistency_checking),
        ensures
            r@ == self.unpadded(padded_message@),
    {
        match self.padding_method {
            Paddings::ANSI_X9_23 => ANSI_X9_23::unpad(padded_message, consistency_checking),
            Paddings::ISO_10126 => ISO_10126::unpad(padded_message, consistency_checking),
            Paddings::ISO_IEC_7816_4 => ISO_IEC_7816_4::unpad(padded_message, consistency_checking),
            Paddings::PKCS7 => PKCS7::unpad(padded_message, consistency_checking),
        }
    }

    /// Whether `unpad` accepts `padded_message` under the chosen scheme.
    pub fn accepts(&self, padded_message: &Vec<u8>, consistency_checking: bool) -> (r: bool)
        ensures
            r == self.unpad_accepts(padded_message@, consistency_checking),
    {
        let len = padded_message.len();
        match self.padding_method {
            Paddings::ISO_IEC_7816_4 => {
                if !consistency_checking {
                    return true;
                }
                let mut n: usize = len;
                assert(padded_message@.subrange(0, n as int) =~= padded_message@);
                while n > 0 && padded_message[n - 1] != 0x80
                    invariant
                        n <= padded_message@.len(),
                        last_marker(padded_message@) == last_marker(padded_message@.subrange(0, n as int)),
                        forall|i: int| n <= i < padded_message@.len() ==> #[trigger] padded_message@[i] != 0x80,
                    decreases n,
                {
                    proof {
                        assert(padded_message@.subrange(0, n as int).drop_last() =~= padded_message@.subrange(0, n - 1));
                    }
                    n = n - 1;
                }
                if n == 0 {
                    return false;
                }
                proof {
                    assert(padded_message@.subrange(0, n as int).last() == 0x80);
                }
                all_equal_range(padded_message, n, len, 0)
            },
            _ => {
                if len == 0 {
                    return false;
                }
                let p = padded_message[len - 1] as usize;
                if p > len {
                    return false;
                }
                if !consistency_checking {
                    return true;
                }
                match self.padding_method {
                    Paddings::ANSI_X9_23 => all_equal_range(padded_message, len - p, len - 1, 0),
                    Paddings::PKCS7 => all_equal_range(padded_message, len - p, len, p as u8),
                    _ => true,
                }
            },
        }
    }
}

proof fn lemma_last_marker_at(s: Seq<u8>, i: int)
    requires
        0 <= i < s.len(),
        s[i] == 0x80,
        forall|j: int| i < j < s.len() ==> #[trigger] s[j] != 0x80,
    ensures
        last_marker(s) == i,
    decreases s.len(),
{
    if s.len() - 1 != i {
        assert(s.last() != 0x80);
        lemma_last_marker_at(s.drop_last(), i);
    }
}

/// Unpadding undoes padding: whatever `pad` appends to `m`, `unpad` (with
/// the consistency check) accepts and strips exactly that.
pub proof fn lemma_pad_round_trip(g: GenericPadding, m: Seq<u8>, block_size: nat, padded: Seq<u8>)
    requires
        1 <= block_size <= 255,
        g.pads_to(m, block_size, padded),
    ensures
        g.unpad_accepts(padded, true),
        g.unpadded(padded) == m,
{
    lemma_pad_len(m.len(), block_size);
    let p = pad_len(m.len(), block_size);
    let len = padded.len();
    assert(padded.subrange(0, len - p) == m);
    match g.padding_method {
        Paddings::PKCS7 => {
            assert(padded.last() == p as u8);
            assert(all_equal_from(padded, len - padded.last(), padded.last()));
        },
        Paddings::ANSI_X9_23 => {
            assert(padded.last() == p as u8);
            assert forall|i: int| len - padded.last() <= i < len - 1 implies #[trigger] padded[i] == 0 by {
                assert(padded[i] == (m + repeat(0, (p - 1) as nat))[i]);
            }
        },
        Paddings::ISO_10126 => {},
        Paddings::ISO_IEC_7816_4 => {
            let k = m.len() as int;
            assert(padded[k] == 0x80);
            assert forall|j: int| k < j < len implies #[trigger] padded[j] != 0x80 by {
                assert(padded[j] == 0);
            }
            lemma_last_marker_at(padded, k);
            assert(all_equal_from(padded, k + 1, 0));
            assert(padded.subrange(0, k) =~= m);
        },
    }
}

/// Whether the bytes of `v` from `from` to `to` all equal `b`.
fn all_equal_range(v: &Vec<u8>, from: usize, to: usize, b: u8) -> (r: bool)
    requires
        to <= v@.len(),
    ensures
        r == forall|i: int| from <= i < to ==> #[trigger] v@[i] == b,
{
    let mut i: usize = from;
    while i < to
        invariant
            from <= i,
            to <= v@.len(),
            forall|j: int| from <= j < i && j < to ==> #[trigger] v@[j] == b,
        decreases to - i,
    {
        if v[i] != b {
            assert(v@[i as int] != b);
            return false;
        }
        i = i + 1;
    }
    true
}

} // verus!
