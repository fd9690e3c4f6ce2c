//! The fingerprint under which a response is cached.
//!
//! The fingerprint is the BLAKE2b digest, 128 bits wide, of a byte string
//! that writes out what the response may depend on: the headers that the
//! request names in `Vary`, the request path and the request body. Every
//! field is written with its length in front or a terminator behind, so
//! that the byte string can be read back in one way only.

use vstd::prelude::*;
use vstd::bytes::*;
use blake2::Digest;
use crate::headers::{
    header_entries, header_values, lower_bytes, names_without_zero, strictly_ascending, values_of,
    HeaderSet,
};
use crate::text::{append_bytes, byte_strings, bytes_lt};

verus! {

/// The BLAKE2b digest of `data`, 128 bits wide, as the crate `blake2`
/// computes it.
pub uninterp spec fn blake2b_128(data: Seq<u8>) -> Seq<u8>;

/// `blake2::Blake2b<U16>`: a hasher is made, fed `data` in one piece and
/// finished. The sixteen bytes that come out are the digest of `data`.
#[verifier::external_body]
pub(crate) fn blake2b_128_digest(data: &[u8]) -> (r: [u8; 16])
    ensures
        r@ == blake2b_128(data@),
{
    let mut hasher = blake2::Blake2b::<blake2::digest::consts::U16>::new();
    hasher.update(data);
    hasher.finalize().into()
}

/// The eight bytes that write `n`, lowest byte first.
pub open spec fn le8(n: nat) -> Seq<u8> {
    spec_u64_to_le_bytes(n as u64)
}

/// The header values `values` joined into one, with `, ` between any two.
pub open spec fn joined_values(values: Seq<Seq<u8>>) -> Seq<u8>
    decreases values.len(),
{
    if values.len() == 0 {
        seq![]
    } else if values.len() == 1 {
        values[0]
    } else {
        joined_values(values.drop_last()) + seq![0x2cu8, 0x20u8] + values.last()
    }
}

/// What one header contributes: its name, a zero byte, its joined values
/// and two zero bytes.
pub open spec fn entry_bytes(name: Seq<u8>, value: Seq<u8>) -> Seq<u8> {
    name + seq![0u8] + value + seq![0u8, 0u8]
}

/// What a list of headers contributes: the bytes of each, in order.
pub open spec fn pairs_bytes(pairs: Seq<(Seq<u8>, Seq<u8>)>) -> Seq<u8>
    decreases pairs.len(),
{
    if pairs.len() == 0 {
        seq![]
    } else {
        entry_bytes(pairs[0].0, pairs[0].1) + pairs_bytes(pairs.drop_first())
    }
}

/// The headers that a request contributes to its fingerprint: for each name
/// of the vary set, in the set's order, the name and the joined values that
/// the request holds under it.
pub open spec fn vary_pairs(names: Seq<Seq<u8>>, entries: Seq<(Seq<u8>, Seq<u8>)>) -> Seq<
    (Seq<u8>, Seq<u8>),
> {
    Seq::new(
        names.len(),
        |i: int| (names[i], joined_values(values_of(entries, lower_bytes(names[i])))),
    )
}

/// What path and body contribute: each with its length in front, as eight
/// bytes.
pub open spec fn body_bytes(path: Seq<u8>, body: Seq<u8>) -> Seq<u8> {
    le8(path.len()) + path + le8(body.len()) + body
}

/// The byte string whose digest is the fingerprint.
pub open spec fn key_preimage(pairs: Seq<(Seq<u8>, Seq<u8>)>, path: Seq<u8>, body: Seq<u8>) -> Seq<
    u8,
> {
    pairs_bytes(pairs) + body_bytes(path, body)
}

/// Appending a header to a list appends its bytes.
pub proof fn lemma_pairs_bytes_push(pairs: Seq<(Seq<u8>, Seq<u8>)>, last: (Seq<u8>, Seq<u8>))
    ensures
        pairs_bytes(pairs.push(last)) == pairs_bytes(pairs) + entry_bytes(last.0, last.1),
    decreases pairs.len(),
{
    if pairs.len() == 0 {
        assert(pairs.push(last).drop_first() =~= pairs);
        assert(pairs_bytes(pairs.push(last)) =~= pairs_bytes(pairs) + entry_bytes(last.0, last.1));
    } else {
        assert(pairs.push(last).drop_first() =~= pairs.drop_first().push(last));
        lemma_pairs_bytes_push(pairs.drop_first(), last);
        assert(pairs_bytes(pairs.push(last)) =~= pairs_bytes(pairs) + entry_bytes(last.0, last.1));
    }
}

/// Gathers the bytes of which a fingerprint is the digest.
#[derive(Debug)]
pub struct KeyHasher {
    buf: Vec<u8>,
}

impl View for KeyHasher {
    type V = Seq<u8>;

    /// The bytes written so far.
    closed spec fn view(&self) -> Seq<u8> {
        self.buf@
    }
}

impl KeyHasher {
    /// A hasher to which nothing was written.
    pub fn new() -> (h: KeyHasher)
        ensures
            h@ == Seq::<u8>::empty(),
    {
        KeyHasher { buf: Vec::new() }
    }

    /// Writes `data` behind what was written before.
    pub fn update(&mut self, data: &[u8])
        ensures
            final(self)@ == old(self)@ + data@,
    {
        append_bytes(&mut self.buf, data);
    }

    /// The digest of all that was written.
    pub fn finalize(self) -> (r: [u8; 16])
        ensures
            r@ == blake2b_128(self@),
    {
        blake2b_128_digest(self.buf.as_slice())
    }
}

/// Joins header values into one, with `, ` between any two.
pub fn join_values(values: &Vec<Vec<u8>>) -> (r: Vec<u8>)
    ensures
        r@ == joined_values(byte_strings(values@)),
{
    let mut out: Vec<u8> = Vec::new();
    let mut i: usize = 0;
    let ghost all = byte_strings(values@);
    proof {
        assert(all.subrange(0, 0) =~= Seq::<Seq<u8>>::empty());
    }
    while i < values.len()
        invariant
            i <= values.len(),
            all == byte_strings(values@),
            out@ == joined_values(all.subrange(0, i as int)),
        decreases values.len() - i,
    {
        if i > 0 {
            out.push(0x2c);
            out.push(0x20);
        }
        let ghost before = out@;
        append_bytes(&mut out, values[i].as_slice());
        proof {
            let head = all.subrange(0, i as int);
            let next = all.subrange(0, i + 1);
            assert(next.drop_last() =~= head);
            assert(next.last() == values@[i as int]@);
            if i == 0 {
                assert(out@ =~= next[0]);
            } else {
                assert(out@ =~= joined_values(head) + seq![0x2cu8, 0x20u8] + next.last());
            }
        }
        i += 1;
    }
    proof {
        assert(all.subrange(0, i as int) =~= all);
    }
    out
}

/// Writes to `hasher` the headers on which the response may depend: for
/// each name of `vary_set`, in ascending order, the name, a zero byte, the
/// values that `headers` holds under it joined by `, `, and two zero bytes.
pub fn hash_vary(hasher: &mut KeyHasher, vary_set: &HeaderSet, headers: &http::HeaderMap)
    ensures
        final(hasher)@ == old(hasher)@ + pairs_bytes(
            vary_pairs(vary_set@, header_entries(*headers)),
        ),
{
    let ghost pairs = vary_pairs(vary_set@, header_entries(*headers));
    let n = vary_set.len();
    let mut i: usize = 0;
    proof {
        assert(pairs.subrange(0, 0) =~= Seq::<(Seq<u8>, Seq<u8>)>::empty());
        assert(hasher@ =~= old(hasher)@ + pairs_bytes(pairs.subrange(0, 0)));
    }
    while i < n
        invariant
            i <= n,
            n == vary_set@.len(),
            pairs == vary_pairs(vary_set@, header_entries(*headers)),
            hasher@ == old(hasher)@ + pairs_bytes(pairs.subrange(0, i as int)),
        decreases n - i,
    {
        let name = vary_set.name(i);
        let values = header_values(headers, name.as_slice());
        let joined = join_values(&values);
        let ghost before = hasher@;
        hasher.update(name.as_slice());
        let zero: Vec<u8> = vec![0u8];
        hasher.update(zero.as_slice());
        hasher.update(joined.as_slice());
        let zeros: Vec<u8> = vec![0u8, 0u8];
        hasher.update(zeros.as_slice());
        proof {
            let head = pairs.subrange(0, i as int);
            assert(pairs.subrange(0, i + 1) =~= head.push(pairs[i as int]));
            lemma_pairs_bytes_push(head, pairs[i as int]);
            assert(pairs[i as int].0 == name@);
            assert(pairs[i as int].1 == joined@);
            assert(hasher@ =~= before + entry_bytes(name@, joined@));
            assert(hasher@ =~= old(hasher)@ + pairs_bytes(pairs.subrange(0, i + 1)));
        }
        i += 1;
    }
    proof {
        assert(pairs.subrange(0, i as int) =~= pairs);
    }
}

/// Writes to `hasher` the request path and the request body, each with its
/// length in front as eight bytes, lowest byte first.
pub fn hash_body(hasher: &mut KeyHasher, path: &[u8], body: &[u8])
    ensures
        final(hasher)@ == old(hasher)@ + body_bytes(path@, body@),
{
    let path_len = u64_to_le_bytes(path.len() as u64);
    hasher.update(path_len.as_slice());
    hasher.update(path);
    let body_len = u64_to_le_bytes(body.len() as u64);
    hasher.update(body_len.as_slice());
    hasher.update(body);
    proof {
        assert(hasher@ =~= old(hasher)@ + body_bytes(path@, body@));
    }
}

/// The fingerprint of a request: the digest of its vary headers, its path
/// and its body.
pub fn cache_key(vary_set: &HeaderSet, headers: &http::HeaderMap, path: &[u8], body: &[u8]) -> (r:
    [u8; 16])
    ensures
        r@ == blake2b_128(
            key_preimage(vary_pairs(vary_set@, header_entries(*headers)), path@, body@),
        ),
{
    let mut hasher = KeyHasher::new();
    hash_vary(&mut hasher, vary_set, headers);
    hash_body(&mut hasher, path, body);
    proof {
        assert(hasher@ =~= key_preimage(
            vary_pairs(vary_set@, header_entries(*headers)),
            path@,
            body@,
        ));
    }
    hasher.finalize()
}

/// Whether no byte of `s` is zero.
pub open spec fn nul_free(s: Seq<u8>) -> bool {
    forall|i: int| 0 <= i < s.len() ==> #[trigger] s[i] != 0
}

/// Whether `pairs` can be the vary headers of a request: no name and no
/// value holds a zero byte, and the names ascend strictly, as the names
/// of a set do.
pub open spec fn valid_pairs(pairs: Seq<(Seq<u8>, Seq<u8>)>) -> bool {
    &&& forall|i: int| 0 <= i < pairs.len() ==> nul_free((#[trigger] pairs[i]).0) && nul_free(pairs[i].1)
    &&& forall|i: int, j: int|
        0 <= i < j < pairs.len() ==> bytes_lt((#[trigger] pairs[i]).0, (#[trigger] pairs[j]).0)
}

/// Whether `path` can be the path of a request: it is not empty, holds no
/// zero byte and is shorter than 2^32 bytes.
pub open spec fn valid_path(path: Seq<u8>) -> bool {
    &&& 1 <= path.len() < 0x1_0000_0000
    &&& nul_free(path)
}

/// Whether no value of `entries` holds a zero byte.
pub open spec fn values_without_zero(entries: Seq<(Seq<u8>, Seq<u8>)>) -> bool {
    forall|i: int| 0 <= i < entries.len() ==> nul_free((#[trigger] entries[i]).1)
}

/// The values under one name hold no zero byte where no value does.
proof fn lemma_values_of_without_zero(entries: Seq<(Seq<u8>, Seq<u8>)>, name: Seq<u8>)
    requires
        values_without_zero(entries),
    ensures
        forall|k: int|
            0 <= k < values_of(entries, name).len() ==> nul_free(
                #[trigger] values_of(entries, name)[k],
            ),
    decreases entries.len(),
{
    if entries.len() > 0 {
        let rest = entries.drop_last();
        assert forall|i: int| 0 <= i < rest.len() implies nul_free((#[trigger] rest[i]).1) by {
            assert(rest[i] == entries[i]);
        }
        lemma_values_of_without_zero(rest, name);
        assert(nul_free(entries[entries.len() - 1].1));
        let found = values_of(entries, name);
        let before = values_of(rest, name);
        assert forall|k: int| 0 <= k < found.len() implies nul_free(#[trigger] found[k]) by {
            if k < before.len() {
                assert(found[k] == before[k]);
            } else {
                assert(found[k] == entries.last().1);
            }
        }
    }
}

/// Joining values that hold no zero byte brings none in.
proof fn lemma_joined_without_zero(values: Seq<Seq<u8>>)
    requires
        forall|k: int| 0 <= k < values.len() ==> nul_free(#[trigger] values[k]),
    ensures
        nul_free(joined_values(values)),
    decreases values.len(),
{
    if values.len() == 1 {
        assert(nul_free(values[0]));
    } else if values.len() > 1 {
        let rest = values.drop_last();
        assert forall|k: int| 0 <= k < rest.len() implies nul_free(#[trigger] rest[k]) by {
            assert(rest[k] == values[k]);
        }
        lemma_joined_without_zero(rest);
        assert(nul_free(values[values.len() - 1]));
        let head = joined_values(rest);
        let sep = seq![0x2cu8, 0x20u8];
        let all = head + sep + values.last();
        assert forall|i: int| 0 <= i < all.len() implies #[trigger] all[i] != 0 by {
            if i < head.len() {
                assert(all[i] == head[i]);
            } else if i < head.len() + 2 {
                assert(all[i] == sep[i - head.len()]);
            } else {
                assert(all[i] == values.last()[i - head.len() - 2]);
            }
        }
    }
}

/// The vary headers of a request are such as the fingerprint tells
/// apart: the names of a vary set ascend strictly and hold no zero byte,
/// and where no header value holds a zero byte, no joined value does.
pub proof fn lemma_vary_pairs_are_valid(names: Seq<Seq<u8>>, entries: Seq<(Seq<u8>, Seq<u8>)>)
    requires
        strictly_ascending(names),
        names_without_zero(names),
        values_without_zero(entries),
    ensures
        valid_pairs(vary_pairs(names, entries)),
{
    let pairs = vary_pairs(names, entries);
    assert forall|i: int| 0 <= i < pairs.len() implies nul_free((#[trigger] pairs[i]).0)
        && nul_free(pairs[i].1) by {
        assert(names.contains(names[i]));
        lemma_values_of_without_zero(entries, lower_bytes(names[i]));
        lemma_joined_without_zero(values_of(entries, lower_bytes(names[i])));
    }
    assert forall|i: int, j: int| 0 <= i < j < pairs.len() implies bytes_lt(
        (#[trigger] pairs[i]).0,
        (#[trigger] pairs[j]).0,
    ) by {
        assert(bytes_lt(names[i], names[j]));
    }
}

/// What the eight bytes of a length below 2^32 look like.
proof fn lemma_le8_small(n: nat)
    requires
        n < 0x1_0000_0000,
    ensures
        le8(n).len() == 8,
        le8(n)[4] == 0,
        le8(n)[5] == 0,
        le8(n)[6] == 0,
        le8(n)[7] == 0,
        (le8(n)[0] == 0 && le8(n)[1] == 0 && le8(n)[2] == 0 && n >= 1) ==> n >= 0x100_0000,
        n <= 3 ==> le8(n)[0] == n && le8(n)[1] == 0 && le8(n)[2] == 0 && le8(n)[3] == 0,
{
    let x = n as u64;
    spec_u64_to_le_bytes_to_open(x);
    assert(spec_u64_to_le_bytes_open(x).len() == 8);
    assert(x < 0x1_0000_0000 ==> ((x >> 32) & 0xff) == 0 && ((x >> 40) & 0xff) == 0 && ((x >> 48)
        & 0xff) == 0 && ((x >> 56) & 0xff) == 0) by (bit_vector);
    assert((x & 0xff) == 0 && ((x >> 8) & 0xff) == 0 && ((x >> 16) & 0xff) == 0 && x >= 1 && x
        < 0x1_0000_0000 ==> x >= 0x100_0000) by (bit_vector);
    assert(x <= 3 ==> (x & 0xff) == x && ((x >> 8) & 0xff) == 0 && ((x >> 16) & 0xff) == 0 && ((x
        >> 24) & 0xff) == 0) by (bit_vector);
    assert((x & 0xff) < 256 && ((x >> 8) & 0xff) < 256 && ((x >> 16) & 0xff) < 256) by (bit_vector);
}

/// Where the parts of what path and body contribute lie.
proof fn lemma_body_bytes_layout(path: Seq<u8>, body: Seq<u8>)
    requires
        path.len() <= u64::MAX,
        body.len() <= u64::MAX,
    ensures
        body_bytes(path, body).len() == 16 + path.len() + body.len(),
        body_bytes(path, body).subrange(0, 8) == le8(path.len()),
        body_bytes(path, body).subrange(8, 8 + path.len() as int) == path,
        body_bytes(path, body).subrange(8 + path.len() as int, 16 + path.len() as int) == le8(
            body.len(),
        ),
        body_bytes(path, body).subrange(
            16 + path.len() as int,
            16 + path.len() as int + body.len() as int,
        ) == body,
{
    lemma_auto_spec_u64_to_from_le_bytes();
    let s = body_bytes(path, body);
    assert(le8(path.len()).len() == 8);
    assert(le8(body.len()).len() == 8);
    assert(s.subrange(0, 8) =~= le8(path.len()));
    let n = path.len() as int;
    let m = body.len() as int;
    assert(s.subrange(8, 8 + n) =~= path);
    assert(s.subrange(8 + n, 16 + n) =~= le8(body.len()));
    assert(s.subrange(16 + n, 16 + n + m) =~= body);
}

/// Path and body are read back from what they contribute: two requests
/// without vary headers that contribute the same bytes have the same path
/// and the same body.
pub proof fn lemma_body_bytes_injective(
    path1: Seq<u8>,
    body1: Seq<u8>,
    path2: Seq<u8>,
    body2: Seq<u8>,
)
    requires
        path1.len() <= u64::MAX,
        body1.len() <= u64::MAX,
        path2.len() <= u64::MAX,
        body2.len() <= u64::MAX,
        body_bytes(path1, body1) == body_bytes(path2, body2),
    ensures
        path1 == path2,
        body1 == body2,
{
    lemma_auto_spec_u64_to_from_le_bytes();
    lemma_body_bytes_layout(path1, body1);
    lemma_body_bytes_layout(path2, body2);
    assert(spec_u64_from_le_bytes(le8(path1.len())) == path1.len() as u64);
    assert(spec_u64_from_le_bytes(le8(path2.len())) == path2.len() as u64);
    assert(path1.len() == path2.len());
    assert(spec_u64_from_le_bytes(le8(body1.len())) == body1.len() as u64);
    assert(spec_u64_from_le_bytes(le8(body2.len())) == body2.len() as u64);
}

/// Where the parts of a header's contribution lie, with whatever follows.
proof fn lemma_entry_layout(name: Seq<u8>, value: Seq<u8>, rest: Seq<u8>)
    requires
        nul_free(name),
        nul_free(value),
    ensures
        ({
            let s = entry_bytes(name, value) + rest;
            let k = name.len() as int;
            let m = k + 1 + value.len();
            &&& s.len() == m + 2 + rest.len()
            &&& forall|i: int| 0 <= i < k ==> #[trigger] s[i] != 0
            &&& s[k] == 0
            &&& forall|i: int| k < i < m ==> #[trigger] s[i] != 0
            &&& s[m] == 0
            &&& s[m + 1] == 0
            &&& s.subrange(0, k) == name
            &&& s.subrange(k + 1, m) == value
            &&& s.subrange(m + 2, s.len() as int) == rest
        }),
{
    let s = entry_bytes(name, value) + rest;
    let k = name.len() as int;
    let m = k + 1 + value.len();
    assert forall|i: int| 0 <= i < k implies #[trigger] s[i] != 0 by {
        assert(s[i] == name[i]);
    }
    assert forall|i: int| k < i < m implies #[trigger] s[i] != 0 by {
        assert(s[i] == value[i - k - 1]);
    }
    assert(s.subrange(0, k) =~= name);
    assert(s.subrange(k + 1, m) =~= value);
    assert(s.subrange(m + 2, s.len() as int) =~= rest);
}

/// A header is read back from its contribution: where two headers, each
/// followed by more bytes, give the same bytes, they are the same header
/// and are followed by the same bytes.
pub proof fn lemma_entry_peel(
    name1: Seq<u8>,
    value1: Seq<u8>,
    rest1: Seq<u8>,
    name2: Seq<u8>,
    value2: Seq<u8>,
    rest2: Seq<u8>,
)
    requires
        nul_free(name1),
        nul_free(value1),
        nul_free(name2),
        nul_free(value2),
        entry_bytes(name1, value1) + rest1 == entry_bytes(name2, value2) + rest2,
    ensures
        name1 == name2,
        value1 == value2,
        rest1 == rest2,
{
    lemma_entry_layout(name1, value1, rest1);
    lemma_entry_layout(name2, value2, rest2);
    let s = entry_bytes(name1, value1) + rest1;
    let k1 = name1.len() as int;
    let k2 = name2.len() as int;
    if k1 < k2 {
        assert(s[k1] != 0);
    }
    if k2 < k1 {
        assert(s[k2] != 0);
    }
    let m1 = k1 + 1 + value1.len();
    let m2 = k2 + 1 + value2.len();
    if m1 < m2 {
        assert(s[m1] != 0);
    }
    if m2 < m1 {
        assert(s[m2] != 0);
    }
}

/// The contribution of a list of headers, followed by that of path and
/// body, begins with the first header.
proof fn lemma_preimage_unfold(pairs: Seq<(Seq<u8>, Seq<u8>)>, path: Seq<u8>, body: Seq<u8>)
    requires
        pairs.len() > 0,
    ensures
        key_preimage(pairs, path, body) == entry_bytes(pairs[0].0, pairs[0].1) + key_preimage(
            pairs.drop_first(),
            path,
            body,
        ),
{
    assert(key_preimage(pairs, path, body) =~= entry_bytes(pairs[0].0, pairs[0].1) + key_preimage(
        pairs.drop_first(),
        path,
        body,
    ));
}

/// The headers behind the first are vary headers too, and each of their
/// names is not empty.
proof fn lemma_valid_rest(pairs: Seq<(Seq<u8>, Seq<u8>)>)
    requires
        valid_pairs(pairs),
        pairs.len() > 0,
    ensures
        valid_pairs(pairs.drop_first()),
        nul_free(pairs[0].0),
        nul_free(pairs[0].1),
        pairs.len() > 1 ==> pairs[1].0.len() > 0,
{
    let rest = pairs.drop_first();
    assert forall|i: int| 0 <= i < rest.len() implies nul_free((#[trigger] rest[i]).0) && nul_free(
        rest[i].1,
    ) by {
        assert(rest[i] == pairs[i + 1]);
    }
    assert forall|i: int, j: int| 0 <= i < j < rest.len() implies bytes_lt(
        (#[trigger] rest[i]).0,
        (#[trigger] rest[j]).0,
    ) by {
        assert(rest[i] == pairs[i + 1]);
        assert(rest[j] == pairs[j + 1]);
    }
    if pairs.len() > 1 {
        assert(bytes_lt(pairs[0].0, pairs[1].0));
        crate::text::lemma_nothing_before_empty(pairs[0].0, pairs[1].0);
    }
}

/// What path and body contribute cannot be read as a header followed by
/// more: the bytes of a request without vary headers are never the bytes
/// of a request with vary headers.
proof fn lemma_no_header_in_body_bytes(
    path: Seq<u8>,
    body: Seq<u8>,
    pairs: Seq<(Seq<u8>, Seq<u8>)>,
    path2: Seq<u8>,
    body2: Seq<u8>,
)
    requires
        valid_path(path),
        body.len() <= u64::MAX,
        valid_pairs(pairs),
        valid_path(path2),
        body2.len() <= u64::MAX,
        body_bytes(path, body) == key_preimage(pairs, path2, body2),
    ensures
        pairs.len() == 0,
{
    if pairs.len() == 0 {
        return ;
    }
    let s = body_bytes(path, body);
    let len = path.len() as int;
    lemma_body_bytes_layout(path, body);
    lemma_le8_small(path.len());
    assert(s[4] == 0 && s[5] == 0 && s[6] == 0 && s[7] == 0 && s[0] == le8(path.len())[0] && s[1]
        == le8(path.len())[1] && s[2] == le8(path.len())[2] && s[3] == le8(path.len())[3]) by {
        assert(s.subrange(0, 8)[0] == s[0]);
        assert(s.subrange(0, 8)[1] == s[1]);
        assert(s.subrange(0, 8)[2] == s[2]);
        assert(s.subrange(0, 8)[3] == s[3]);
        assert(s.subrange(0, 8)[4] == s[4]);
        assert(s.subrange(0, 8)[5] == s[5]);
        assert(s.subrange(0, 8)[6] == s[6]);
        assert(s.subrange(0, 8)[7] == s[7]);
    }
    assert forall|i: int| 0 <= i < len implies #[trigger] s[8 + i] != 0 by {
        assert(s.subrange(8, 8 + len)[i] == s[8 + i]);
        assert(path[i] != 0);
    }
    assert(s[8] != 0) by {
        assert(s[8 + 0int] != 0);
    }
    // The first header.
    let name = pairs[0].0;
    let value = pairs[0].1;
    let rest = pairs.drop_first();
    let r = key_preimage(rest, path2, body2);
    lemma_preimage_unfold(pairs, path2, body2);
    lemma_valid_rest(pairs);
    lemma_entry_layout(name, value, r);
    let k = name.len() as int;
    let m = k + 1 + value.len();
    let t = m + 2;
    assert(k <= 4) by {
        if k > 4 {
            assert(s[4] != 0);
        }
    }
    assert(m <= 5) by {
        if value.len() > 0 {
            assert(s[k + 1] != 0);
            if m > 4 {
                assert(s[4] != 0);
            }
        }
    }
    assert(3 <= t <= 7);
    assert forall|i: int| 0 <= i < r.len() implies #[trigger] r[i] == s[t + i] by {
        assert(s.subrange(t, s.len() as int)[i] == s[t + i]);
    }
    if rest.len() == 0 {
        // What follows the header is the contribution of path and body.
        assert(r =~= body_bytes(path2, body2));
        lemma_body_bytes_layout(path2, body2);
        lemma_le8_small(path2.len());
        assert(r[4] == 0) by {
            assert(r.subrange(0, 8)[4] == r[4]);
        }
        assert(s[t + 4] == 0) by {
            assert(r[4] == s[t + 4]);
        }
        if t <= 3 {
            assert(r[5] == 0) by {
                assert(r.subrange(0, 8)[5] == r[5]);
            }
            assert(r[5] == s[t + 5]);
        } else if t == 4 {
        } else {
            // t + 4 lies behind the first byte of the path.
            if len > t - 4 {
                assert(s[8 + (t - 4)] != 0);
            } else {
                assert(len <= 3);
                assert(s[0] != 0 && s[1] == 0 && s[2] == 0);
                assert(k == 1) by {
                    if k == 0 {
                        assert(s[0] == 0);
                    } else if k > 1 {
                        assert(s[1] != 0);
                    }
                }
                assert(value.len() == 0) by {
                    if value.len() > 0 {
                        assert(s[2] != 0);
                    }
                }
            }
        }
    } else {
        // What follows the header is another header, whose name is not
        // empty.
        let name2 = rest[0].0;
        let value2 = rest[0].1;
        let rest2 = rest.drop_first();
        let r2 = key_preimage(rest2, path2, body2);
        lemma_preimage_unfold(rest, path2, body2);
        assert(rest[0] == pairs[1]);
        lemma_valid_rest(rest);
        lemma_entry_layout(name2, value2, r2);
        assert(r[0] != 0);
        assert(s[t] != 0) by {
            assert(r[0] == s[t + 0int]);
        }
        assert(t == 3);
        assert(k == 0 && value.len() == 0);
        assert(s[0] == 0 && s[1] == 0 && s[2] == 0);
        assert(len >= 0x100_0000);
        let k2 = name2.len() as int;
        assert(k2 == 1) by {
            if k2 > 1 {
                assert(r[1] != 0);
                assert(r[1] == s[t + 1]);
            }
        }
        let m2 = k2 + 1 + value2.len();
        assert(value2.len() == 0) by {
            if value2.len() > 0 {
                assert(r[2] != 0);
                assert(r[2] == s[t + 2]);
            }
        }
        let t2 = m2 + 2;
        assert(t2 == 4);
        assert forall|i: int| 0 <= i < r2.len() implies #[trigger] r2[i] == s[7 + i] by {
            assert(r.subrange(t2, r.len() as int)[i] == r[t2 + i]);
            assert(r[t2 + i] == s[t + (t2 + i)]);
        }
        if rest2.len() == 0 {
            assert(r2 =~= body_bytes(path2, body2));
            lemma_body_bytes_layout(path2, body2);
            lemma_le8_small(path2.len());
            assert(r2[4] == 0) by {
                assert(r2.subrange(0, 8)[4] == r2[4]);
            }
            assert(r2[4] == s[7 + 4int]);
            assert(s[8 + 3int] != 0);
        } else {
            let name3 = rest2[0].0;
            lemma_preimage_unfold(rest2, path2, body2);
            assert(rest2[0] == rest[1]);
            lemma_valid_rest(rest2);
            lemma_entry_layout(name3, rest2[0].1, key_preimage(rest2.drop_first(), path2, body2));
            assert(r2[0] != 0);
            assert(r2[0] == s[7 + 0int]);
        }
    }
}

/// The bytes of which a fingerprint is the digest can be read back in one
/// way only: two requests that differ in their vary headers, their path
/// or their body, in any byte, give different bytes.
///
/// The headers are those of a vary set with the values of a header map:
/// no zero byte in a name or a value, names in strictly ascending order.
/// The path is not empty, holds no zero byte, and is shorter than 2^32
/// bytes.
pub proof fn lemma_key_preimage_injective(
    pairs1: Seq<(Seq<u8>, Seq<u8>)>,
    path1: Seq<u8>,
    body1: Seq<u8>,
    pairs2: Seq<(Seq<u8>, Seq<u8>)>,
    path2: Seq<u8>,
    body2: Seq<u8>,
)
    requires
        valid_pairs(pairs1),
        valid_pairs(pairs2),
        valid_path(path1),
        valid_path(path2),
        body1.len() <= u64::MAX,
        body2.len() <= u64::MAX,
        key_preimage(pairs1, path1, body1) == key_preimage(pairs2, path2, body2),
    ensures
        pairs1 == pairs2,
        path1 == path2,
        body1 == body2,
    decreases pairs1.len() + pairs2.len(),
{
    if pairs1.len() == 0 && pairs2.len() == 0 {
        assert(key_preimage(pairs1, path1, body1) =~= body_bytes(path1, body1));
        assert(key_preimage(pairs2, path2, body2) =~= body_bytes(path2, body2));
        lemma_body_bytes_injective(path1, body1, path2, body2);
        assert(pairs1 =~= pairs2);
    } else if pairs1.len() == 0 {
        assert(key_preimage(pairs1, path1, body1) =~= body_bytes(path1, body1));
        lemma_no_header_in_body_bytes(path1, body1, pairs2, path2, body2);
    } else if pairs2.len() == 0 {
        assert(key_preimage(pairs2, path2, body2) =~= body_bytes(path2, body2));
        lemma_no_header_in_body_bytes(path2, body2, pairs1, path1, body1);
    } else {
        lemma_preimage_unfold(pairs1, path1, body1);
        lemma_preimage_unfold(pairs2, path2, body2);
        lemma_valid_rest(pairs1);
        lemma_valid_rest(pairs2);
        lemma_entry_peel(
            pairs1[0].0,
            pairs1[0].1,
            key_preimage(pairs1.drop_first(), path1, body1),
            pairs2[0].0,
            pairs2[0].1,
            key_preimage(pairs2.drop_first(), path2, body2),
        );
        lemma_key_preimage_injective(
            pairs1.drop_first(),
            path1,
            body1,
            pairs2.drop_first(),
            path2,
            body2,
        );
        assert(pairs1[0] == pairs2[0]);
        assert(pairs1 =~= seq![pairs1[0]] + pairs1.drop_first());
        assert(pairs2 =~= seq![pairs2[0]] + pairs2.drop_first());
    }
}

/// The fingerprint is a function of the vary headers, the path and the
/// body: requests that agree in them have the same fingerprint.
pub proof fn lemma_fingerprint_is_deterministic(
    pairs1: Seq<(Seq<u8>, Seq<u8>)>,
    path1: Seq<u8>,
    body1: Seq<u8>,
    pairs2: Seq<(Seq<u8>, Seq<u8>)>,
    path2: Seq<u8>,
    body2: Seq<u8>,
)
    requires
        pairs1 == pairs2,
        path1 == path2,
        body1 == body2,
    ensures
        blake2b_128(key_preimage(pairs1, path1, body1)) == blake2b_128(
            key_preimage(pairs2, path2, body2),
        ),
{
}

} // verus!
