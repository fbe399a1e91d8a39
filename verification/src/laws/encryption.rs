//! Encrypting: for which recipients, signers and messages it succeeds.

use vstd::prelude::*;
use vstd::slice::*;
use vstd::string::*;

use crate::armor;
use crate::armor::parse_public_list;
use crate::encrypt::{
    encrypt, encrypt_binary, encrypt_core, encrypt_str, encrypt_streaming, encrypt_streaming_binary,
    StreamMode,
};
use crate::file_encrypt::FileEncryptor;
use crate::handshake;
use crate::keys::{unlock_secret, PublicBundle, PublicView, SecretBundle};
use crate::streaming;

verus! {

/// Whether `k` is what unlocking the signer's secret gives, if there is a signer.
pub open spec fn unlocks(
    signer: Option<(&str, &str)>,
    k: Option<Result<SecretBundle, ()>>,
) -> bool {
    &&& signer is Some == k is Some
    &&& signer matches Some(s) ==> call_ensures(unlock_secret, (s.0, s.1), k->0)
}

/// How many different recipients there are: those with the same X25519 key and the
/// same ML-KEM-768 key are one.
pub open spec fn different(list: Seq<PublicBundle>) -> nat {
    list.map_values(|p: PublicBundle| p.ecdh_pk@ + p.pq_pk@).to_set().len()
}

/// Whether a header with an entry for each of the recipients, and perhaps a
/// signature, has at most as many bytes as a 32-bit number can count.
pub open spec fn header_counted(list: Seq<PublicBundle>, signed: bool) -> bool {
    96 + 1184 * different(list) + (if signed {
        3373int
    } else {
        0
    }) <= 0xFFFF_FFFF
}

/// Whether a message can be encrypted whole, by what its recipients and its signer's
/// secret are read as.
pub open spec fn whole_goes(
    len: nat,
    list: Result<Vec<PublicBundle>, ()>,
    k: Option<Result<SecretBundle, ()>>,
) -> bool {
    &&& list matches Ok(l) && header_counted(l@, k is Some)
    &&& k matches Some(r) ==> r is Ok
    &&& len <= 0x3F_FFFF_FF80
}

/// Whether a message can be encrypted in chunks, by what its recipients and its
/// signer's secret are read as: no chunk is as long as the end marker says less a tag,
/// and a 32-bit number can count the chunks.
pub open spec fn stream_goes(
    len: nat,
    size: nat,
    list: Result<Vec<PublicBundle>, ()>,
    k: Option<Result<SecretBundle, ()>>,
) -> bool {
    &&& size > 0
    &&& list matches Ok(l) && header_counted(l@, false)
    &&& k matches Some(r) ==> r is Ok
    &&& len + 16 < 0xFFFF_FFFF || size + 16 < 0xFFFF_FFFF
    &&& len <= 0xFFFF_FFFF * size
}

/// The list of keys, counted either way.
proof fn lemma_different(l: Seq<PublicBundle>)
    ensures
        handshake::recipient_count(armor::public_views(l)) == different(l),
{
    let a = armor::public_views(l).map_values(|p: PublicView| handshake::sort_key(p));
    let b = l.map_values(|p: PublicBundle| p.ecdh_pk@ + p.pq_pk@);
    assert(a =~= b);
}

/// A message is encrypted whole for every list of valid keys whose entries fit a
/// header, however many they are, if the signer's secret unlocks and the message is no
/// longer than the cipher takes; and only then.
pub proof fn law_whole_accepted(
    bytes: &[u8],
    recipients: &str,
    signer: Option<(&str, &str)>,
    list: Result<Vec<PublicBundle>, ()>,
    k: Option<Result<SecretBundle, ()>>,
    r: Result<Vec<u8>, ()>,
)
    requires
        call_ensures(parse_public_list, (recipients,), list),
        unlocks(signer, k),
        call_ensures(encrypt, (bytes, recipients, signer), r) || call_ensures(
            encrypt_binary,
            (bytes, recipients, signer),
            r,
        ) || call_ensures(encrypt_core, (bytes, recipients, signer, StreamMode::Off), r),
    ensures
        r is Ok <==> whole_goes(bytes@.len(), list, k),
{
    if list is Ok {
        lemma_different(list->Ok_0@);
    }
}

/// A text is encrypted where its bytes are.
pub proof fn law_text_accepted(
    s: &str,
    recipients: &str,
    signer: Option<(&str, &str)>,
    list: Result<Vec<PublicBundle>, ()>,
    k: Option<Result<SecretBundle, ()>>,
    r: Result<Vec<u8>, ()>,
)
    requires
        call_ensures(parse_public_list, (recipients,), list),
        unlocks(signer, k),
        call_ensures(encrypt_str, (s, recipients, signer), r),
    ensures
        r is Ok <==> whole_goes(s.spec_bytes().len(), list, k),
{
    if list is Ok {
        lemma_different(list->Ok_0@);
    }
}

/// A message of `len` bytes in pieces of `size`: all but the last are that long.
pub open spec fn pieces(pt: Seq<u8>, size: nat) -> Seq<Seq<u8>> {
    Seq::new(
        piece_count(pt.len(), size),
        |i: int|
            pt.subrange(
                i * size,
                if (i + 1) * size < pt.len() {
                    (i + 1) * size
                } else {
                    pt.len() as int
                },
            ),
    )
}

/// How many pieces of `size` bytes hold `len` bytes.
pub open spec fn piece_count(len: nat, size: nat) -> nat {
    if size == 0 {
        0
    } else {
        ((len + size - 1) / size as int) as nat
    }
}

/// One piece more.
proof fn lemma_piece_count(len: nat, size: nat)
    requires
        size > 0,
    ensures
        len == 0 ==> piece_count(len, size) == 0,
        0 < len <= size ==> piece_count(len, size) == 1,
        len > size ==> piece_count(len, size) == 1 + piece_count((len - size) as nat, size),
{
    if len == 0 {
        assert((size - 1) / size as int == 0) by (nonlinear_arith)
            requires
                size > 0,
        ;
    } else if len <= size {
        assert((len + size - 1) / size as int == 1) by (nonlinear_arith)
            requires
                0 < len <= size,
        ;
    } else {
        assert((len + size - 1) / size as int == 1 + (len - size + size - 1) / size as int)
            by (nonlinear_arith)
            requires
                0 < size < len,
        ;
    }
}

/// Cutting off one piece after the other gives the pieces.
pub proof fn lemma_pieces(pt: Seq<u8>, size: nat)
    requires
        size > 0,
    ensures
        streaming::chunks_of(pt, size) == pieces(pt, size),
    decreases pt.len(),
{
    let a = streaming::chunks_of(pt, size);
    let b = pieces(pt, size);
    lemma_piece_count(pt.len(), size);
    if pt.len() == 0 {
        assert(a =~= b);
    } else if pt.len() <= size {
        assert(b.len() == 1);
        assert(0 * size == 0 && 1 * size == size) by (nonlinear_arith);
        assert(b[0] =~= pt);
        assert(a =~= b);
    } else {
        let rest = pt.skip(size as int);
        lemma_pieces(rest, size);
        let c = pieces(rest, size);
        assert(a == seq![pt.take(size as int)] + c);
        assert(0 * size == 0 && 1 * size == size) by (nonlinear_arith);
        assert forall|i: int| 0 <= i < b.len() implies b[i] == a[i] by {
            if i == 0 {
                assert(b[0] =~= pt.take(size as int));
            } else {
                assert(c[i - 1] == a[i]);
                assert(i * size == (i - 1) * size + size) by (nonlinear_arith);
                assert((i + 1) * size == i * size + size) by (nonlinear_arith);
                assert(i - 1 + 1 == i);
                assert((i - 1) * size <= rest.len()) by (nonlinear_arith)
                    requires
                        i - 1 < (rest.len() + size - 1) / size as int,
                        size > 0,
                        1 <= i,
                ;
                assert(0 <= (i - 1) * size) by (nonlinear_arith)
                    requires
                        1 <= i,
                ;
                assert(b[i] =~= c[i - 1]);
            }
        }
        assert(a =~= b);
    }
}

/// How long the pieces are, and how many.
pub proof fn lemma_pieces_fit(pt: Seq<u8>, size: nat)
    requires
        size > 0,
    ensures
        streaming::chunks_fit(streaming::chunks_of(pt, size)) <==> {
            &&& pt.len() + 16 < 0xFFFF_FFFF || size + 16 < 0xFFFF_FFFF
            &&& pt.len() <= 0xFFFF_FFFF * size
        },
{
    lemma_pieces(pt, size);
    let c = pieces(pt, size);
    let n = piece_count(pt.len(), size);
    lemma_piece_count(pt.len(), size);
    assert(n <= 0xFFFF_FFFF <==> pt.len() <= 0xFFFF_FFFF * size) by (nonlinear_arith)
        requires
            size > 0,
            n == (pt.len() + size - 1) / size as int,
    ;
    assert forall|i: int| 0 <= i < n implies 0 <= i * size < pt.len() && (#[trigger] c[i]).len()
        <= size && c[i].len() <= pt.len() by {
        assert(0 <= i * size < pt.len() && (i + 1) * size == i * size + size) by (nonlinear_arith)
            requires
                0 <= i < n,
                size > 0,
                n == (pt.len() + size - 1) / size as int,
        ;
    }
    if n > 0 {
        assert(0 * size == 0 && 1 * size == size) by (nonlinear_arith);
        assert(c[0].len() == if size < pt.len() {
            size
        } else {
            pt.len()
        });
    } else {
        assert(pt.len() == 0) by (nonlinear_arith)
            requires
                0 == (pt.len() + size - 1) / size as int,
                size > 0,
        ;
    }
    if streaming::chunks_fit(c) {
        if n > 0 {
            assert(streaming::chunk_fits(c[0]));
        }
    }
}

/// A message is encrypted in chunks for every list of valid keys whose entries fit a
/// header, however many they are, if the signer's secret unlocks and the chunks can be
/// counted and framed; and only then.
pub proof fn law_stream_accepted(
    bytes: &[u8],
    recipients: &str,
    signer: Option<(&str, &str)>,
    chunk_size: usize,
    list: Result<Vec<PublicBundle>, ()>,
    k: Option<Result<SecretBundle, ()>>,
    r: Result<Vec<u8>, ()>,
)
    requires
        call_ensures(parse_public_list, (recipients,), list),
        unlocks(signer, k),
        call_ensures(encrypt_streaming_binary, (bytes, recipients, signer, chunk_size), r)
            || call_ensures(
            encrypt_core,
            (bytes, recipients, signer, StreamMode::On { chunk_size }),
            r,
        ),
    ensures
        r is Ok <==> stream_goes(bytes@.len(), chunk_size as nat, list, k),
{
    if list is Ok {
        lemma_different(list->Ok_0@);
    }
    if chunk_size > 0 {
        lemma_pieces_fit(bytes@, chunk_size as nat);
    }
}

/// In armor the same holds, but that an empty message needs a signer.
pub proof fn law_armored_stream_accepted(
    bytes: &[u8],
    recipients: &str,
    signer: Option<(&str, &str)>,
    chunk_size: usize,
    list: Result<Vec<PublicBundle>, ()>,
    k: Option<Result<SecretBundle, ()>>,
    r: Result<Vec<u8>, ()>,
)
    requires
        call_ensures(parse_public_list, (recipients,), list),
        unlocks(signer, k),
        call_ensures(encrypt_streaming, (bytes, recipients, signer, chunk_size), r),
    ensures
        r is Ok <==> stream_goes(bytes@.len(), chunk_size as nat, list, k) && (bytes@.len() > 0
            || signer is Some),
{
    if list is Ok {
        lemma_different(list->Ok_0@);
    }
    if chunk_size > 0 {
        lemma_pieces_fit(bytes@, chunk_size as nat);
    }
}

/// A file begins for every list of valid keys whose entries fit a header, if the
/// signer's secret unlocks and the chunk size is not zero; and only then.
pub proof fn law_file_accepted(
    recipients: &str,
    signer: Option<(&str, &str)>,
    chunk_size: usize,
    list: Result<Vec<PublicBundle>, ()>,
    k: Option<Result<SecretBundle, ()>>,
    r: Result<(FileEncryptor, Vec<u8>), ()>,
)
    requires
        call_ensures(parse_public_list, (recipients,), list),
        unlocks(signer, k),
        call_ensures(FileEncryptor::begin, (recipients, signer, chunk_size), r),
    ensures
        r is Ok <==> chunk_size > 0 && (list matches Ok(l) && header_counted(l@, false)) && (
        k matches Some(u) ==> u is Ok),
{
    if list is Ok {
        lemma_different(list->Ok_0@);
    }
}

} // verus!
