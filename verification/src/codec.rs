//! Reading and writing messages.
use vstd::prelude::*;

verus! {

use vstd::arithmetic::power::pow;
use crate::bytes::{
    le_bytes, le_value, lemma_le_bytes_len, lemma_le_bytes_of_value, lemma_le_value_bound,
    lemma_le_value_of_bytes,
};
use crate::field::{decode_element, encode_element, encode_vals, vals, FieldElement};

/// An error of reading a message.
#[derive(Clone, Copy, Debug, PartialEq, Eq)]
pub enum CodecError {
    /// The message ends too early.
    UnexpectedEnd,
    /// A number in the message is not the representative of a field element.
    InvalidElement,
}

/// A message that is being read.
///
/// The view is what is still to be read.
#[derive(Debug)]
pub struct Cursor<'a> {
    rest: &'a [u8],
}

impl<'a> View for Cursor<'a> {
    type V = Seq<u8>;

    closed spec fn view(&self) -> Seq<u8> {
        self.rest@
    }
}

impl<'a> Cursor<'a> {
    /// Starts to read a message.
    pub fn new(bytes: &'a [u8]) -> (r: Self)
        ensures
            r@ == bytes@,
    {
        Cursor { rest: bytes }
    }

    /// The number of bytes that are still to be read.
    pub fn remaining(&self) -> (r: usize)
        ensures
            r == self@.len(),
    {
        self.rest.len()
    }

    /// Reads `n` bytes.
    pub fn read(&mut self, n: usize) -> (r: Result<&'a [u8], CodecError>)
        ensures
            n <= old(self)@.len() ==> (r matches Ok(s) && s@ == old(self)@.take(n as int)
                && final(self)@ == old(self)@.skip(n as int)),
            n > old(self)@.len() ==> r == Err::<&'a [u8], CodecError>(CodecError::UnexpectedEnd)
                && final(self)@ == old(self)@,
    {
        if n > self.rest.len() {
            return Err(CodecError::UnexpectedEnd);
        }
        let all: &'a [u8] = self.rest;
        let head = vstd::slice::slice_subrange(all, 0, n);
        self.rest = vstd::slice::slice_subrange(all, n, all.len());
        assert(head@ =~= old(self)@.take(n as int));
        assert(self@ =~= old(self)@.skip(n as int));
        Ok(head)
    }
}

/// What is read from the start of a message, and what is left of it.
pub type Parsed<T> = Result<(T, Seq<u8>), CodecError>;

/// Reads `n` bytes.
pub open spec fn parse_bytes(b: Seq<u8>, n: nat) -> Parsed<Seq<u8>> {
    if b.len() < n {
        Err(CodecError::UnexpectedEnd)
    } else {
        Ok((b.take(n as int), b.skip(n as int)))
    }
}

/// Reads `n` representatives below `p`, each in `size` bytes.
pub open spec fn parse_elements(b: Seq<u8>, n: nat, size: nat, p: int) -> Parsed<Seq<int>>
    decreases n,
{
    if n == 0 {
        Ok((Seq::empty(), b))
    } else if b.len() < size {
        Err(CodecError::UnexpectedEnd)
    } else {
        let v = le_value(b.take(size as int));
        if v >= p {
            Err(CodecError::InvalidElement)
        } else {
            match parse_elements(b.skip(size as int), (n - 1) as nat, size, p) {
                Ok((rest, left)) => Ok((seq![v] + rest, left)),
                Err(e) => Err(e),
            }
        }
    }
}

/// The encoding of a sequence is that of its first entry and that of the others.
pub proof fn lemma_encode_vals_first(s: Seq<int>, size: nat)
    requires
        s.len() > 0,
    ensures
        encode_vals(s, size) == le_bytes(s[0], size) + encode_vals(s.drop_first(), size),
    decreases s.len(),
{
    if s.len() == 1 {
        assert(encode_vals(s.drop_last(), size) =~= Seq::<u8>::empty());
        assert(encode_vals(s.drop_first(), size) =~= Seq::<u8>::empty());
        assert(encode_vals(s, size) =~= le_bytes(s[0], size) + encode_vals(s.drop_first(), size));
    } else {
        let t = s.drop_first();
        lemma_encode_vals_first(s.drop_last(), size);
        assert(s.drop_last().drop_first() =~= t.drop_last());
        assert(encode_vals(s, size) =~= le_bytes(s[0], size) + (encode_vals(t.drop_last(), size)
            + le_bytes(t.last(), size)));
    }
}

/// Reading what was written gives it back, and leaves what follows.
pub proof fn lemma_parse_encoded(s: Seq<int>, rest: Seq<u8>, size: nat, p: int)
    requires
        p <= pow(256, size),
        forall|i: int| 0 <= i < s.len() ==> 0 <= #[trigger] s[i] < p,
    ensures
        parse_elements(encode_vals(s, size) + rest, s.len(), size, p) == Ok::<
            (Seq<int>, Seq<u8>),
            CodecError,
        >((s, rest)),
    decreases s.len(),
{
    if s.len() == 0 {
        assert(encode_vals(s, size) + rest =~= rest);
        assert(s =~= Seq::empty());
    } else {
        let t = s.drop_first();
        assert forall|i: int| 0 <= i < t.len() implies 0 <= #[trigger] t[i] < p by {
            assert(t[i] == s[i + 1]);
        }
        lemma_encode_vals_first(s, size);
        lemma_le_bytes_len(s[0], size);
        lemma_le_value_of_bytes(s[0], size);
        lemma_parse_encoded(t, rest, size, p);
        let b = encode_vals(s, size) + rest;
        assert(b.take(size as int) =~= le_bytes(s[0], size));
        assert(b.skip(size as int) =~= encode_vals(t, size) + rest);
        assert(seq![s[0]] + t =~= s);
    }
}

/// Writing what was read gives what it was read from: no two messages are read as the same
/// numbers.
pub proof fn lemma_encode_parsed(b: Seq<u8>, n: nat, size: nat, p: int)
    ensures
        parse_elements(b, n, size, p) matches Ok((s, rest)) ==> s.len() == n && encode_vals(s, size)
            + rest == b && forall|i: int| 0 <= i < n ==> 0 <= #[trigger] s[i] < p,
    decreases n,
{
    if n == 0 {
        assert(encode_vals(Seq::empty(), size) + b =~= b);
    } else if b.len() >= size {
        let head = b.take(size as int);
        let v = le_value(head);
        let tail = b.skip(size as int);
        lemma_le_bytes_of_value(head);
        lemma_le_value_bound(head);
        lemma_encode_parsed(tail, (n - 1) as nat, size, p);
        if v < p {
            if let Ok((rest, left)) = parse_elements(tail, (n - 1) as nat, size, p) {
                let s = seq![v] + rest;
                lemma_encode_vals_first(s, size);
                assert(s.drop_first() =~= rest);
                assert(encode_vals(s, size) + left =~= head + (encode_vals(rest, size) + left));
                assert(head + tail =~= b);
            }
        }
    }
}

/// Reads `n` field elements.
pub fn read_elements<F: FieldElement>(n: usize, cursor: &mut Cursor) -> (r: Result<
    Vec<F>,
    CodecError,
>)
    ensures
        match parse_elements(
            old(cursor)@,
            n as nat,
            F::encoded_size_spec(),
            F::modulus(),
        ) {
            Ok((v, rest)) => r matches Ok(out) && vals(out@) == v && final(cursor)@ == rest,
            Err(e) => r == Err::<Vec<F>, CodecError>(e),
        },
{
    let ghost (size, p) = (F::encoded_size_spec(), F::modulus());
    let ghost start = cursor@;
    let mut out: Vec<F> = Vec::new();
    let mut i: usize = 0;
    proof {
        assert(vals(out@) =~= Seq::<int>::empty());
        if let Ok((v, rest)) = parse_elements(start, n as nat, size, p) {
            assert(vals(out@) + v =~= v);
        }
    }
    while i < n
        invariant
            i <= n,
            size == F::encoded_size_spec(),
            p == F::modulus(),
            out@.len() == i,
            start == old(cursor)@,
            parse_elements(start, n as nat, size, p) == (match parse_elements(
                cursor@,
                (n - i) as nat,
                size,
                p,
            ) {
                Ok((v, rest)) => Ok((vals(out@) + v, rest)),
                Err(e) => Err(e),
            }),
        decreases n - i,
    {
        let ghost before = cursor@;
        let bytes = match cursor.read(F::encoded_size()) {
            Ok(b) => b,
            Err(e) => {
                return Err(e);
            },
        };
        let x: F = match decode_element(bytes) {
            Some(x) => x,
            None => {
                return Err(CodecError::InvalidElement);
            },
        };
        let ghost sofar = vals(out@);
        out.push(x);
        proof {
            assert(vals(out@) =~= sofar.push(x.val()));
            if let Ok((v, rest)) = parse_elements(cursor@, (n - i - 1) as nat, size, p) {
                assert(sofar + (seq![x.val()] + v) =~= vals(out@) + v);
            }
        }
        i += 1;
    }
    assert(vals(out@) + Seq::<int>::empty() =~= vals(out@));
    Ok(out)
}

/// Writes field elements.
pub fn write_elements<F: FieldElement>(elements: &[F], bytes: &mut Vec<u8>)
    ensures
        final(bytes)@ == old(bytes)@ + encode_vals(vals(elements@), F::encoded_size_spec()),
{
    let ghost size = F::encoded_size_spec();
    let ghost start = bytes@;
    let mut i: usize = 0;
    proof {
        assert(vals(elements@).take(0) =~= Seq::<int>::empty());
        assert(start + encode_vals(vals(elements@).take(0), size) =~= start);
    }
    while i < elements.len()
        invariant
            i <= elements@.len(),
            size == F::encoded_size_spec(),
            bytes@ == start + encode_vals(vals(elements@).take(i as int), size),
        decreases elements@.len() - i,
    {
        let mut encoded = encode_element(&elements[i]);
        bytes.append(&mut encoded);
        proof {
            let t = vals(elements@).take(i + 1);
            assert(t.drop_last() =~= vals(elements@).take(i as int));
            assert(bytes@ =~= start + encode_vals(t, size));
        }
        i += 1;
    }
    assert(vals(elements@).take(i as int) =~= vals(elements@));
}

/// The number in the `k`-th run of `size` bytes.
pub open spec fn number_at(b: Seq<u8>, size: nat, k: int) -> int {
    le_value(b.subrange(k * size, k * size + size))
}

/// The `k`-th number is the first that cannot be read, and `e` is the error: it is not below `p`,
/// or its bytes are not all there.
pub open spec fn fails_at(b: Seq<u8>, size: nat, p: int, k: int, e: CodecError) -> bool {
    &&& k * size <= b.len()
    &&& forall|i: int| 0 <= i < k ==> #[trigger] number_at(b, size, i) < p
    &&& if k * size + size <= b.len() {
        e == CodecError::InvalidElement && number_at(b, size, k) >= p
    } else {
        e == CodecError::UnexpectedEnd
    }
}

/// Reading `n` numbers from the start of `b` gives `r`: it succeeds exactly if all are there and
/// each is below `p`, and what follows them is left. Otherwise the error is that of the first one
/// that is not.
pub open spec fn reads_numbers(
    b: Seq<u8>,
    n: nat,
    size: nat,
    p: int,
    r: Parsed<Seq<int>>,
) -> bool {
    match r {
        Ok((s, rest)) => {
            &&& s.len() == n
            &&& n * size <= b.len()
            &&& rest == b.skip((n * size) as int)
            &&& forall|k: int| 0 <= k < n ==> #[trigger] s[k] == number_at(b, size, k) && s[k] < p
        },
        Err(e) => exists|k: int| 0 <= k < n && #[trigger] fails_at(b, size, p, k, e),
    }
}

/// Numbers are read as they stand in the message.
pub proof fn law_parse_elements(b: Seq<u8>, n: nat, size: nat, p: int)
    ensures
        reads_numbers(b, n, size, p, parse_elements(b, n, size, p)),
    decreases n,
{
    assert(0 * size == 0) by (nonlinear_arith);
    if n == 0 {
        assert(b.skip(0) =~= b);
    } else if b.len() < size {
        assert(fails_at(b, size, p, 0, CodecError::UnexpectedEnd));
    } else {
        let v = le_value(b.take(size as int));
        assert(b.subrange(0int * size, 0int * size + size) =~= b.take(size as int));
        assert(number_at(b, size, 0) == v);
        if v >= p {
            assert(fails_at(b, size, p, 0, CodecError::InvalidElement));
        } else {
            let c = b.skip(size as int);
            let m = (n - 1) as nat;
            law_parse_elements(c, m, size, p);
            assert(n * size == m * size + size) by (nonlinear_arith)
                requires
                    n == m + 1,
            ;
            assert forall|i: int| 0 <= i && i * size + size <= c.len() implies #[trigger] number_at(
                c,
                size,
                i,
            ) == number_at(b, size, i + 1) by {
                assert((i + 1) * size == i * size + size) by (nonlinear_arith);
                assert(0 <= i * size) by (nonlinear_arith)
                    requires
                        0 <= i,
                ;
                assert(c.subrange(i * size, i * size + size) =~= b.subrange(
                    (i + 1) * size,
                    (i + 1) * size + size,
                ));
            }
            let r = parse_elements(c, m, size, p);
            if r is Ok {
                let (t, rest) = r->Ok_0;
                let s = seq![v] + t;
                assert(rest =~= b.skip((n * size) as int));
                assert forall|k: int| 0 <= k < n implies #[trigger] s[k] == number_at(b, size, k)
                    && s[k] < p by {
                    if k > 0 {
                        assert(s[k] == t[k - 1]);
                        assert((k - 1) * size + size <= m * size) by (nonlinear_arith)
                            requires
                                k <= m,
                        ;
                        assert(number_at(c, size, k - 1) == number_at(b, size, k));
                    }
                }
            } else {
                let e = r->Err_0;
                let k = choose|k: int| 0 <= k < m && #[trigger] fails_at(c, size, p, k, e);
                let q = k + 1;
                assert(q * size == k * size + size) by (nonlinear_arith)
                    requires
                        q == k + 1,
                ;
                assert forall|i: int| 0 <= i < q implies #[trigger] number_at(b, size, i) < p by {
                    if i > 0 {
                        assert((i - 1) * size + size <= k * size) by (nonlinear_arith)
                            requires
                                i <= k,
                        ;
                        assert(number_at(c, size, i - 1) < p);
                        assert(number_at(c, size, i - 1) == number_at(b, size, i));
                    }
                }
                if k * size + size <= c.len() {
                    assert(number_at(c, size, k) == number_at(b, size, q));
                }
                assert(fails_at(b, size, p, q, e));
            }
        }
    }
}

/// Reading bytes succeeds exactly if there are so many, and leaves the others.
pub proof fn law_parse_bytes(b: Seq<u8>, n: nat)
    ensures
        match parse_bytes(b, n) {
            Ok((s, rest)) => s.len() == n && s + rest == b,
            Err(e) => b.len() < n && e == CodecError::UnexpectedEnd,
        },
{
    if n <= b.len() {
        assert(b.take(n as int) + b.skip(n as int) =~= b);
    }
}

} // verus!
