//! Reed-Solomon forward error correction of payloads: four data shards and two
//! parity shards, so that any two lost shards can be rebuilt by the receiver.
use reed_solomon_erasure::galois_8::Field as Gf8;
use reed_solomon_erasure::Error as RsError;
use reed_solomon_erasure::ReedSolomon;
use vstd::prelude::*;

verus! {

/// A `ReedSolomon` codec over GF(2^8). Verus cannot take the declaration of the
/// generic codec type (its bound is a trait of the outside crate), so the codec
/// is held here, out of Verus's sight.
#[verifier::external_body]
struct RsInner {
    codec: ReedSolomon<Gf8>,
}

/// A codec with the numbers of data and parity shards it was made with. Only
/// `rs_new` makes one, from the same two numbers.
pub struct RsCodec {
    inner: RsInner,
    data_shards: usize,
    parity_shards: usize,
}

#[verifier::external_type_specification]
#[verifier::external_body]
pub struct ExRsError(RsError);

/// Data shards of a payload.
pub const DATA_SHARDS: usize = 4usize;

/// Parity shards added to them.
pub const PARITY_SHARDS: usize = 2usize;

/// The parity shards `ReedSolomon::encode` computes from the data shards, for a
/// codec with the given numbers of data and parity shards.
pub uninterp spec fn rs_parity(data_shards: usize, parity_shards: usize, data: Seq<Seq<u8>>) -> Seq<
    Seq<u8>,
>;

/// The full set of shards `ReedSolomon::reconstruct` rebuilds from the shards
/// that are present.
pub uninterp spec fn rs_restored(
    data_shards: usize,
    parity_shards: usize,
    shards: Seq<Option<Seq<u8>>>,
) -> Seq<Seq<u8>>;

/// Every shard has the same, non-zero length.
pub open spec fn uniform_shards(shards: Seq<Seq<u8>>) -> bool {
    &&& shards.len() > 0
    &&& shards[0].len() > 0
    &&& forall|i: int| 0 <= i < shards.len() ==> #[trigger] shards[i].len() == shards[0].len()
}

/// The shards present all have the same, non-zero length.
pub open spec fn uniform_present(shards: Seq<Option<Seq<u8>>>) -> bool {
    forall|i: int, j: int|
        0 <= i < shards.len() && 0 <= j < shards.len() && shards[i] is Some && shards[j] is Some
            ==> #[trigger] shards[i]->0.len() == #[trigger] shards[j]->0.len() && shards[i]->0.len()
            > 0
}

/// Number of shards present.
pub open spec fn present_count(shards: Seq<Option<Seq<u8>>>) -> nat
    decreases shards.len(),
{
    if shards.len() == 0 {
        0
    } else {
        present_count(shards.drop_last()) + if shards.last() is Some {
            1nat
        } else {
            0nat
        }
    }
}

/// The complete code word of some data: the data shards, then their parity.
pub open spec fn codeword(d: usize, p: usize, data: Seq<Seq<u8>>) -> Seq<Seq<u8>> {
    data + rs_parity(d, p, data)
}

/// Every shard present agrees with the code word of `data`.
pub open spec fn fits_codeword(d: usize, p: usize, shards: Seq<Option<Seq<u8>>>, data: Seq<Seq<u8>>) -> bool {
    &&& data.len() == d
    &&& uniform_shards(data)
    &&& shards.len() == d + p
    &&& forall|i: int|
        0 <= i < shards.len() && shards[i] is Some ==> #[trigger] shards[i]->0 == codeword(d, p, data)[i]
}

/// Makes a codec: `ReedSolomon::new`. It fails exactly when there is no data or
/// no parity shard, or more than 256 shards in all (the field's order); the codec
/// keeps the two counts.
#[verifier::external_body]
fn rs_new(data_shards: usize, parity_shards: usize) -> (r: Result<RsCodec, RsError>)
    requires
        data_shards + parity_shards <= usize::MAX,
    ensures
        r is Ok <==> (data_shards > 0 && parity_shards > 0 && data_shards + parity_shards <= 256),
        r matches Ok(c) ==> c.data_shards == data_shards && c.parity_shards == parity_shards,
{
    match ReedSolomon::new(data_shards, parity_shards) {
        Ok(codec) => Ok(RsCodec { inner: RsInner { codec }, data_shards, parity_shards }),
        Err(e) => Err(e),
    }
}

/// Fills the parity shards: `ReedSolomon::encode`. It fails, changing nothing,
/// when the number of shards is not the codec's total, or the shards are empty or
/// of different lengths; otherwise the data shards stay, and the parity shards
/// (of the same length) become the parity of the data shards.
#[verifier::external_body]
fn rs_encode(codec: &RsCodec, shards: &mut Vec<Vec<u8>>) -> (r: Result<(), RsError>)
    ensures
        ({
            let d = codec.data_shards;
            let p = codec.parity_shards;
            let before = old(shards).deep_view();
            let after = final(shards).deep_view();
            &&& r is Ok <==> (before.len() == d + p && uniform_shards(before))
            &&& r is Err ==> after == before
            &&& r is Ok ==> {
                &&& after.len() == before.len()
                &&& after.subrange(0, d as int) == before.subrange(0, d as int)
                &&& after.subrange(d as int, after.len() as int) == rs_parity(
                    d,
                    p,
                    before.subrange(0, d as int),
                )
                &&& uniform_shards(after)
                &&& after[0].len() == before[0].len()
            }
        }),
{
    codec.inner.codec.encode(shards)
}

/// Rebuilds the missing shards: `ReedSolomon::reconstruct`. It fails, changing
/// nothing, when the number of shards is not the codec's total, a shard present is
/// empty or of another length than the others, or fewer shards than the data
/// shards are present while some are missing. Otherwise every shard is present:
/// those present stay, the others are rebuilt at the same length. When the
/// shards present agree with the code word of some data, the rebuilt shards are
/// that code word (any `parity` missing shards can be rebuilt).
#[verifier::external_body]
fn rs_reconstruct(codec: &RsCodec, shards: &mut Vec<Option<Vec<u8>>>) -> (r: Result<
    (),
    RsError,
>)
    ensures
        ({
            let d = codec.data_shards;
            let p = codec.parity_shards;
            let before = old(shards).deep_view();
            let after = final(shards).deep_view();
            &&& r is Ok <==> (before.len() == d + p && uniform_present(before) && (present_count(
                before,
            ) == d + p || present_count(before) >= d))
            &&& r is Err ==> after == before
            &&& r is Ok ==> {
                &&& after.len() == before.len()
                &&& forall|i: int|
                    0 <= i < after.len() ==> #[trigger] after[i] == Some(
                        rs_restored(d, p, before)[i],
                    )
                &&& forall|i: int|
                    0 <= i < before.len() && before[i] is Some ==> #[trigger] rs_restored(
                        d,
                        p,
                        before,
                    )[i] == before[i]->0
                &&& forall|data: Seq<Seq<u8>>|
                    #[trigger] fits_codeword(d, p, before, data) ==> rs_restored(d, p, before)
                        == codeword(d, p, data)
            }
        }),
{
    codec.inner.codec.reconstruct(shards)
}

/// Text of a codec error: the context, then the error's `Debug` form.
#[verifier::external_body]
fn describe_error(context: &str, e: RsError) -> String {
    format!("{}: {:?}", context, e)
}

/// Bytes per shard for a payload: the length divided among the data shards,
/// rounded up.
pub open spec fn shard_size(len: nat) -> nat {
    ((len + 3) / 4) as nat
}

/// The payload padded with zeros to fill the data shards.
pub open spec fn padded(payload: Seq<u8>) -> Seq<u8> {
    payload + Seq::new((4 * shard_size(payload.len()) - payload.len()) as nat, |i: int| 0u8)
}

/// The data shards of a payload: consecutive chunks of the padded payload.
pub open spec fn data_shards_of(payload: Seq<u8>) -> Seq<Seq<u8>> {
    let s = shard_size(payload.len()) as int;
    Seq::new(4, |i: int| padded(payload).subrange(i * s, (i + 1) * s))
}

/// The data shards joined back together.
pub open spec fn join_data(shards: Seq<Seq<u8>>) -> Seq<u8> {
    shards[0] + shards[1] + shards[2] + shards[3]
}

/// The present shards among the first `n`, joined in order; missing ones are skipped.
pub open spec fn present_join(shards: Seq<Option<Seq<u8>>>, n: int) -> Seq<u8>
    decreases n,
{
    if n <= 0 {
        Seq::empty()
    } else {
        present_join(shards, n - 1) + match shards[n - 1] {
            Some(x) => x,
            None => Seq::empty(),
        }
    }
}

/// Joins the present shards among the four data shards, in order.
pub fn join_present_data(shards: &Vec<Option<Vec<u8>>>) -> (r: Vec<u8>)
    requires
        shards.deep_view().len() >= DATA_SHARDS,
    ensures
        r@ == present_join(shards.deep_view(), DATA_SHARDS as int),
{
    let mut out: Vec<u8> = Vec::new();
    let mut i: usize = 0;
    while i < DATA_SHARDS
        invariant
            i <= DATA_SHARDS,
            shards.deep_view().len() >= DATA_SHARDS,
            out@ == present_join(shards.deep_view(), i as int),
        decreases DATA_SHARDS - i,
    {
        let ghost prefix = out@;
        match &shards[i] {
            Some(shard) => {
                assert(shards.deep_view()[i as int] == Some(shard@));
                let mut j: usize = 0;
                while j < shard.len()
                    invariant
                        j <= shard@.len(),
                        out@ == prefix + shard@.take(j as int),
                    decreases shard@.len() - j,
                {
                    out.push(shard[j]);
                    proof {
                        assert(out@ =~= prefix + shard@.take(j + 1));
                    }
                    j = j + 1;
                }
                assert(shard@.take(shard@.len() as int) =~= shard@);
            },
            None => {
                assert(shards.deep_view()[i as int] is None);
                assert(out@ =~= prefix + Seq::<u8>::empty());
            },
        }
        i = i + 1;
    }
    out
}

/// Shape of the data shards: the padded payload fills four shards of equal
/// length, and each shard is the matching chunk of it.
proof fn lemma_data_shards(payload: Seq<u8>)
    ensures
        padded(payload).len() == 4 * shard_size(payload.len()),
        payload.len() > 0 ==> shard_size(payload.len()) > 0,
        data_shards_of(payload).len() == 4,
        forall|i: int|
            0 <= i < 4 ==> #[trigger] data_shards_of(payload)[i].len() == shard_size(
                payload.len(),
            ),
{
    let s = shard_size(payload.len()) as int;
    let pad = padded(payload);
    let d = data_shards_of(payload);
    assert(pad.len() == 4 * s);
    assert forall|i: int| 0 <= i < 4 implies #[trigger] d[i].len() == s by {
        if i == 0 {
            assert(d[0] == pad.subrange(0, s));
        } else if i == 1 {
            assert(1 * s == s);
            assert(d[1] == pad.subrange(s, 2 * s));
        } else if i == 2 {
            assert(d[2] == pad.subrange(2 * s, 3 * s));
        } else {
            assert(d[3] == pad.subrange(3 * s, 4 * s));
        }
    }
}

/// Pushing a byte vector onto a vector of byte vectors pushes its bytes onto the
/// deep view.
proof fn lemma_push_deep_view(before: Vec<Vec<u8>>, after: Vec<Vec<u8>>, x: Vec<u8>)
    requires
        after@ == before@.push(x),
    ensures
        after.deep_view() == before.deep_view().push(x@),
{
    assert(x.deep_view() =~= x@);
    assert forall|m: int| 0 <= m < before@.len() implies #[trigger] after.deep_view()[m]
        == before.deep_view()[m] by {
        assert(after@[m] == before@[m]);
    }
    assert(after.deep_view() =~= before.deep_view().push(x@));
}

/// Data shard `i` of a payload: its chunk of the zero-padded payload.
fn data_shard(payload: &[u8], i: usize, shard_len: usize) -> (r: Vec<u8>)
    requires
        i < 4,
        payload@.len() > 0,
        payload@.len() + 3 <= usize::MAX,
        shard_len == shard_size(payload@.len()),
    ensures
        r@ == data_shards_of(payload@)[i as int],
{
    let n: usize = payload.len();
    let ghost pad = padded(payload@);
    proof {
        lemma_data_shards(payload@);
        assert(i * shard_len + shard_len <= 4 * shard_len) by (nonlinear_arith)
            requires
                i < 4,
        ;
        assert((i + 1) * shard_len == i * shard_len + shard_len) by (nonlinear_arith);
    }
    let base: usize = i * shard_len;
    let mut shard: Vec<u8> = Vec::new();
    let mut j: usize = 0;
    while j < shard_len
        invariant
            n == payload@.len(),
            pad == padded(payload@),
            pad.len() == 4 * shard_len,
            base + shard_len <= 4 * shard_len,
            4 * shard_len <= n + 3,
            n + 3 <= usize::MAX,
            j <= shard_len,
            shard@ == pad.subrange(base as int, base + j),
        decreases shard_len - j,
    {
        let at: usize = base + j;
        let b: u8 = if at < n {
            payload[at]
        } else {
            0
        };
        assert(b == pad[at as int]);
        shard.push(b);
        proof {
            assert(shard@ =~= pad.subrange(base as int, base + j + 1));
        }
        j = j + 1;
    }
    shard
}

/// Encoder and decoder of payloads with four data and two parity shards.
pub struct FecCodec {
    rs: RsCodec,
}

impl FecCodec {
    /// The codec works with four data and two parity shards.
    pub closed spec fn wf(&self) -> bool {
        self.rs.data_shards == DATA_SHARDS && self.rs.parity_shards == PARITY_SHARDS
    }

    pub fn new() -> (r: Result<Self, String>)
        ensures
            r matches Ok(c) && c.wf(),
    {
        match rs_new(DATA_SHARDS, PARITY_SHARDS) {
            Ok(rs) => Ok(FecCodec { rs }),
            Err(e) => Err(describe_error("ReedSolomon init failed", e)),
        }
    }

    /// Splits a payload into four zero-padded data shards and adds two parity
    /// shards.
    pub fn encode_payload_fec(&self, payload: &[u8]) -> (r: Result<Vec<Vec<u8>>, String>)
        requires
            self.wf(),
            payload@.len() > 0,
            payload@.len() + 3 <= usize::MAX,
        ensures
            r matches Ok(shards) && shards.deep_view() == codeword(
                DATA_SHARDS,
                PARITY_SHARDS,
                data_shards_of(payload@),
            ) && shards.deep_view().len() == 6 && uniform_shards(shards.deep_view()),
    {
        let n: usize = payload.len();
        let shard_len: usize = (n + 3) / 4;
        let ghost data = data_shards_of(payload@);
        proof {
            lemma_data_shards(payload@);
        }
        let mut shards: Vec<Vec<u8>> = Vec::new();
        let mut i: usize = 0;
        while i < DATA_SHARDS
            invariant
                n == payload@.len(),
                n > 0,
                n + 3 <= usize::MAX,
                shard_len == shard_size(n as nat),
                data == data_shards_of(payload@),
                data.len() == 4,
                i <= DATA_SHARDS,
                shards.deep_view() == data.take(i as int),
            decreases DATA_SHARDS - i,
        {
            let shard = data_shard(payload, i, shard_len);
            let ghost before = shards;
            shards.push(shard);
            proof {
                lemma_push_deep_view(before, shards, shard);
                assert(data.take(i + 1) =~= data.take(i as int).push(data[i as int]));
            }
            i = i + 1;
        }
        assert(data.take(4) =~= data);
        let mut k: usize = 0;
        while k < PARITY_SHARDS
            invariant
                k <= PARITY_SHARDS,
                shard_len > 0,
                shards.deep_view().len() == DATA_SHARDS + k,
                shards.deep_view().subrange(0, 4) == data,
                forall|m: int|
                    0 <= m < shards.deep_view().len() ==> #[trigger] shards.deep_view()[m].len()
                        == shard_len,
            decreases PARITY_SHARDS - k,
        {
            let zeros: Vec<u8> = vec![0u8; shard_len];
            let ghost before = shards;
            shards.push(zeros);
            proof {
                lemma_push_deep_view(before, shards, zeros);
                assert(shards.deep_view().subrange(0, 4) =~= before.deep_view().subrange(0, 4));
            }
            k = k + 1;
        }
        let ghost before = shards.deep_view();
        match rs_encode(&self.rs, &mut shards) {
            Ok(()) => {
                proof {
                    let after = shards.deep_view();
                    assert(after =~= after.subrange(0, 4) + after.subrange(4, after.len() as int));
                }
                Ok(shards)
            },
            Err(e) => Err(describe_error("Encode error", e)),
        }
    }

    /// Rebuilds missing shards and joins the four data shards back together.
    pub fn decode_payload_fec(&self, shards: Vec<Option<Vec<u8>>>) -> (r: Result<Vec<u8>, String>)
        requires
            self.wf(),
        ensures
            r is Ok <==> (shards.deep_view().len() == 6 && uniform_present(shards.deep_view())
                && present_count(shards.deep_view()) >= 4),
            r matches Ok(bytes) ==> bytes@ == join_data(
                rs_restored(DATA_SHARDS, PARITY_SHARDS, shards.deep_view()),
            ),
            forall|data: Seq<Seq<u8>>|
                #[trigger] fits_codeword(DATA_SHARDS, PARITY_SHARDS, shards.deep_view(), data) ==> (
                r matches Ok(bytes) ==> bytes@ == join_data(data)),
    {
        let mut shards = shards;
        let ghost before = shards.deep_view();
        match rs_reconstruct(&self.rs, &mut shards) {
            Ok(()) => {
                let ghost full = rs_restored(DATA_SHARDS, PARITY_SHARDS, before);
                proof {
                    assert forall|data: Seq<Seq<u8>>|
                        #[trigger] fits_codeword(DATA_SHARDS, PARITY_SHARDS, before, data) implies join_data(full)
                        == join_data(data) by {
                        assert(full == codeword(DATA_SHARDS, PARITY_SHARDS, data));
                        assert(full[0] == data[0] && full[1] == data[1] && full[2] == data[2]
                            && full[3] == data[3]);
                    }
                }
                let out = join_present_data(&shards);
                proof {
                    let dv = shards.deep_view();
                    assert(dv[0] == Some(full[0]) && dv[1] == Some(full[1]) && dv[2] == Some(full[2])
                        && dv[3] == Some(full[3]));
                    assert(present_join(dv, 0) == Seq::<u8>::empty());
                    assert(present_join(dv, 1) == full[0]);
                    assert(present_join(dv, 2) == full[0] + full[1]);
                    assert(present_join(dv, 3) == full[0] + full[1] + full[2]);
                    assert(present_join(dv, 4) == join_data(full));
                }
                Ok(out)
            },
            Err(e) => Err(describe_error("Decode error", e)),
        }
    }
}

/// Forward error correction recovers the payload: when at least four of the six
/// shards of a payload's code word arrive (any two may be lost), the shards that
/// arrived are consistent, agree with that code word, and its data shards join
/// back to the payload padded with zeros. With the contracts of
/// `encode_payload_fec` and `decode_payload_fec`, decoding what survives of an
/// encoding gives the padded payload back.
pub proof fn lemma_fec_roundtrip(payload: Seq<u8>, received: Seq<Option<Seq<u8>>>)
    requires
        payload.len() > 0,
        codeword(DATA_SHARDS, PARITY_SHARDS, data_shards_of(payload)).len() == 6,
        uniform_shards(codeword(DATA_SHARDS, PARITY_SHARDS, data_shards_of(payload))),
        received.len() == 6,
        forall|i: int|
            0 <= i < 6 && received[i] is Some ==> #[trigger] received[i]->0 == codeword(
                DATA_SHARDS,
                PARITY_SHARDS,
                data_shards_of(payload),
            )[i],
    ensures
        uniform_present(received),
        fits_codeword(DATA_SHARDS, PARITY_SHARDS, received, data_shards_of(payload)),
        join_data(data_shards_of(payload)) == padded(payload),
{
    let data = data_shards_of(payload);
    let cw = codeword(DATA_SHARDS, PARITY_SHARDS, data);
    let s = shard_size(payload.len()) as int;
    let pad = padded(payload);
    assert(pad.len() == 4 * s);
    assert forall|i: int| 0 <= i < 4 implies #[trigger] data[i] == cw[i] by {}
    assert(uniform_shards(data)) by {
        assert forall|i: int| 0 <= i < data.len() implies #[trigger] data[i].len() == data[0].len() by {
            assert(data[i] == cw[i]);
            assert(data[0] == cw[0]);
        }
        assert(data[0] == cw[0]);
    }
    assert forall|i: int, j: int|
        0 <= i < received.len() && 0 <= j < received.len() && received[i] is Some
            && received[j] is Some implies #[trigger] received[i]->0.len()
        == #[trigger] received[j]->0.len() && received[i]->0.len() > 0 by {
        assert(received[i]->0 == cw[i]);
        assert(received[j]->0 == cw[j]);
        assert(cw[i].len() == cw[0].len());
        assert(cw[j].len() == cw[0].len());
    }
    assert(join_data(data) =~= pad);
}

} // verus!
